//! A bounds consistent propagator for different values that looks first whether the bounds
//! that have changed can matter.
//!
//! At each fixed point the propagator remembers the bounds of the views, and for each interval
//! between them how many values it has to spare. As long as the changes since then leave every
//! interval that they reach with values to spare, nothing else needs to be done.

use rustc_hash::FxHashSet;
use vstd::prelude::*;

use crate::constraints::difference_logic::outcome;
use crate::constraints::int_unique::{
    all_different, all_pushed_out, bounds_consistent, has_views, lemma_views_narrowed,
    IntUniqueBounds,
};
use crate::constraints::slack::{
    bounds_limited, cell, critical, critical_values, enclosed, encloses, is_end, is_slack,
    lemma_cell, lemma_cells_apart, lemma_filled, lemma_members, slack_table, spare,
};
use crate::helpers::fx::{set_elements, set_insert, set_new};
use crate::helpers::sorted::ascending;
use crate::model::tightening::{all_separate, lemma_plain_restricted};
use crate::solver::inference::{
    lemma_infers_join, lemma_infers_nothing, lemma_infers_step, lemma_narrows_later,
};
use crate::solver::initialization::{InitializationContext, IntAdvice, IntTrigger, PriorityLevel};
use crate::solver::int_view::{
    at_least, at_most, in_limits, lemma_bounds_taken, lemma_view_bounds,
};
use crate::solver::reason::{
    antecedent, lemma_built_reason_equivalent, Conflict, ReasonBuilder,
};
use crate::solver::solving_context::{
    IntEvent, IntPropCond, LitPropagation, Rule, SolvingContext,
};
use crate::solver::view::{
    all_hold, BoolAssignment, BoolView, IntAssignment, IntLitMeaning, IntVal, IntView, INT_LIMIT,
};

verus! {

/// What looking at the changed bounds shows.
#[derive(Clone, Copy, Debug, PartialEq, Eq, Hash, Structural)]
pub enum CumulativeOutcome {
    /// No interval is used up that was not used up before.
    Skip,
    /// All bounds have to be looked at.
    CannotSkip,
}

/// Where intervals that are used up push a bound.
#[derive(Debug, PartialEq, Eq)]
pub enum Phase1Outcome {
    /// The bound, and the intervals that pushed it, by the ranks of their ends.
    Done(IntVal, Vec<(usize, usize)>),
    /// The last interval pushes the bound beyond the other bound of the view.
    WipeOut(usize, usize),
    /// The bound is not one of those that are remembered.
    BoundsMiss,
}

/// What an updated view does to the intervals that hold it now.
#[derive(Clone, Copy, Debug, PartialEq, Eq, Hash, Structural)]
pub enum Phase2Outcome {
    /// Every interval keeps a value to spare.
    Clean,
    /// Some interval is used up now.
    NewHallWouldForm,
    /// An interval has no value left for the view.
    Overcrowded(usize, usize),
}

/// The propagator.
#[derive(Debug)]
pub struct IntUniqueBoundsCumulativeSlack {
    /// The propagator that looks at all bounds.
    pub bounds: IntUniqueBounds,
    /// The lower bounds at the last fixed point.
    pub cached_lb: Vec<IntVal>,
    /// The upper bounds at the last fixed point.
    pub cached_ub: Vec<IntVal>,
    /// The bounds at which intervals start or end, in increasing order.
    pub s_bounds: Vec<IntVal>,
    /// How many values each interval had to spare at the last fixed point.
    pub slack: Vec<IntVal>,
    /// How many values are left, as far as the changed bounds were looked at.
    pub working: Vec<IntVal>,
    /// The views whose bounds have changed.
    pub var_updated: FxHashSet<usize>,
    /// Whether the search has backtracked.
    pub pending_backtrack: bool,
    /// Whether there is a fixed point to compare with.
    pub cache_valid: bool,
    /// How often the propagator was run.
    pub prop_calls: u64,
    /// How often it looked at all bounds.
    pub prop_full: u64,
    /// How often there was no need to.
    pub prop_skips: u64,
    /// How many bounds were pushed on the way to finding out.
    pub prop_pushes: u64,
    /// How many conflicts were found.
    pub prop_failures: u64,
    /// How many of them without looking at all bounds.
    pub prop_check_failures: u64,
    /// How often the search had backtracked before a run.
    pub prop_backtracks: u64,
}

/// The counter after `n` more. It stays at the largest number that it can hold.
pub open spec fn counted(c: u64, n: int) -> u64 {
    if c + n > u64::MAX {
        u64::MAX
    } else {
        (c + n) as u64
    }
}

/// Where intervals push a lower bound to.
pub open spec fn climb_end(s: Seq<IntVal>, from: int, chain: Seq<(usize, usize)>) -> int {
    if chain.len() == 0 {
        from
    } else {
        s[chain.last().1 as int] as int
    }
}

/// Whether the intervals push a lower bound one after another: each one starts at the bound,
/// ends at the rank `j` at most, has no values left, and is the shortest such interval.
pub open spec fn climbs(
    s: Seq<IntVal>,
    table: Seq<IntVal>,
    from: int,
    j: int,
    chain: Seq<(usize, usize)>,
) -> bool
    decreases chain.len(),
{
    chain.len() == 0 || {
        let (l, u) = chain.last();
        &&& climbs(s, table, from, j, chain.drop_last())
        &&& row_hit(s, table, l as int, u as int, j)
        &&& s[l as int] == climb_end(s, from, chain.drop_last())
    }
}

/// Whether the interval is the shortest one from the rank `l` that has no values left.
pub open spec fn row_hit(s: Seq<IntVal>, table: Seq<IntVal>, l: int, u: int, j: int) -> bool {
    &&& 0 <= l < u <= j < s.len()
    &&& cell(table, s.len() as int, l, u) <= 0
    &&& forall|v: int| l < v < u ==> #[trigger] cell(table, s.len() as int, l, v) > 0
}

/// Whether no interval from the rank `l` up to the rank `j` is without values.
pub open spec fn row_free(s: Seq<IntVal>, table: Seq<IntVal>, l: int, j: int) -> bool {
    forall|v: int| l < v <= j ==> #[trigger] cell(table, s.len() as int, l, v) > 0
}

/// Where intervals push an upper bound to.
pub open spec fn sink_end(s: Seq<IntVal>, from: int, chain: Seq<(usize, usize)>) -> int {
    if chain.len() == 0 {
        from
    } else {
        s[chain.last().0 as int] - 1
    }
}

/// Whether the intervals push an upper bound one after another: each one ends behind the
/// bound, starts behind the rank `r`, has no values left, and is the shortest such interval.
pub open spec fn sinks(
    s: Seq<IntVal>,
    table: Seq<IntVal>,
    from: int,
    r: int,
    chain: Seq<(usize, usize)>,
) -> bool
    decreases chain.len(),
{
    chain.len() == 0 || {
        let (l, u) = chain.last();
        &&& sinks(s, table, from, r, chain.drop_last())
        &&& col_hit(s, table, l as int, u as int, r)
        &&& s[u as int] == sink_end(s, from, chain.drop_last()) + 1
    }
}

/// Whether the interval is the shortest one up to the rank `u` that has no values left.
pub open spec fn col_hit(s: Seq<IntVal>, table: Seq<IntVal>, l: int, u: int, r: int) -> bool {
    &&& 0 <= r < l < u < s.len()
    &&& cell(table, s.len() as int, l, u) <= 0
    &&& forall|k: int| l < k < u ==> #[trigger] cell(table, s.len() as int, k, u) > 0
}

/// Whether no interval from behind the rank `r` up to the rank `u` is without values.
pub open spec fn col_free(s: Seq<IntVal>, table: Seq<IntVal>, u: int, r: int) -> bool {
    forall|k: int| r < k < u ==> #[trigger] cell(table, s.len() as int, k, u) > 0
}

/// Whether a view that starts at the rank `r` and ends before the rank `j` starts inside an
/// interval without values that ends before it.
pub open spec fn starts_inside(s: Seq<IntVal>, table: Seq<IntVal>, r: int, j: int) -> bool {
    exists|l: int, u: int|
        #![trigger cell(table, s.len() as int, l, u)]
        0 <= l < r < u < j && cell(table, s.len() as int, l, u) <= 0
}

/// Whether a view that starts at the rank `r` and ends before the rank `e` ends inside an interval
/// without values that starts after it.
pub open spec fn ends_inside(s: Seq<IntVal>, table: Seq<IntVal>, e: int, r: int) -> bool {
    exists|l: int, u: int|
        #![trigger cell(table, s.len() as int, l, u)]
        r < l < e < u < s.len() && cell(table, s.len() as int, l, u) <= 0
}

/// A rectangle of the table, without the entries that stand for no interval.
pub open spec fn in_rect(l: int, u: int, l_lo: int, l_hi: int, u_lo: int, u_hi: int) -> bool {
    l_lo <= l < l_hi && u_lo <= u < u_hi && l < u
}

impl IntUniqueBoundsCumulativeSlack {
    /// The views.
    pub open spec fn vars(&self) -> Seq<IntView> {
        self.bounds.var@
    }

    /// The remembered bounds fit the views, and the table fits them.
    pub open spec fn wf(&self) -> bool {
        let n = self.vars().len();
        &&& self.bounds.wf()
        &&& self.cached_lb.len() == n
        &&& self.cached_ub.len() == n
        &&& 4 * n * n <= usize::MAX
        &&& n <= INT_LIMIT
        &&& forall|k: usize| #[trigger] self.var_updated@.contains(k) ==> k < n
        &&& self.cache_valid ==> self.tabled()
    }

    /// The table belongs to the remembered bounds.
    pub open spec fn tabled(&self) -> bool {
        &&& bounds_limited(self.cached_lb@, self.cached_ub@)
        &&& ascending(self.s_bounds@)
        &&& critical(self.s_bounds@, self.cached_lb@, self.cached_ub@)
        &&& is_slack(self.slack@, self.s_bounds@, self.cached_lb@, self.cached_ub@)
        &&& self.s_bounds.len() * self.s_bounds.len() <= usize::MAX
    }

    /// The bounds of the views lie within those that are remembered.
    pub open spec fn current(&self, ctx: &SolvingContext) -> bool {
        forall|k: int|
            0 <= k < self.vars().len() ==> self.cached_lb[k] <= ctx.view_min(
                #[trigger] self.vars()[k],
            ) && ctx.view_max(self.vars()[k]) <= self.cached_ub[k]
    }

    /// No interval has more values left than at the last fixed point, and intervals count as
    /// used up only if they were so then.
    pub open spec fn working_sound(&self) -> bool {
        let m = self.s_bounds.len() as int;
        &&& self.working.len() == self.slack.len()
        &&& forall|l: int, u: int|
            #![trigger cell(self.working@, m, l, u)]
            0 <= l < u < m ==> cell(self.working@, m, l, u) <= cell(self.slack@, m, l, u) && (cell(
                self.working@,
                m,
                l,
                u,
            ) <= 0 ==> cell(self.slack@, m, l, u) <= 0)
    }

    /// Whether nothing differs but how many values are left, and the counters.
    pub open spec fn same_but_working(&self, other: &IntUniqueBoundsCumulativeSlack) -> bool {
        &&& self.bounds == other.bounds
        &&& self.cached_lb == other.cached_lb
        &&& self.cached_ub == other.cached_ub
        &&& self.s_bounds == other.s_bounds
        &&& self.slack == other.slack
        &&& self.var_updated == other.var_updated
        &&& self.pending_backtrack == other.pending_backtrack
        &&& self.cache_valid == other.cache_valid
    }

    /// Whether the counters agree.
    pub open spec fn same_counters(&self, other: &IntUniqueBoundsCumulativeSlack) -> bool {
        self.same_runs(other) && self.prop_pushes == other.prop_pushes
    }

    /// Whether the counters agree, but for that of pushed bounds.
    pub open spec fn same_runs(&self, other: &IntUniqueBoundsCumulativeSlack) -> bool {
        &&& self.prop_calls == other.prop_calls
        &&& self.prop_full == other.prop_full
        &&& self.prop_skips == other.prop_skips
        &&& self.prop_failures == other.prop_failures
        &&& self.prop_check_failures == other.prop_check_failures
        &&& self.prop_backtracks == other.prop_backtracks
    }

    /// Create the propagator for the given views.
    pub fn new(vars: Vec<IntView>) -> (r: IntUniqueBoundsCumulativeSlack)
        requires
            vars.len() <= INT_LIMIT,
            4 * vars.len() * vars.len() <= usize::MAX,
        ensures
            r.wf(),
            r.bounds.var == vars,
            !r.cache_valid,
            !r.pending_backtrack,
            forall|k: usize| !#[trigger] r.var_updated@.contains(k),
            r.prop_calls == 0,
            r.prop_full == 0,
            r.prop_skips == 0,
            r.prop_pushes == 0,
            r.prop_failures == 0,
            r.prop_check_failures == 0,
            r.prop_backtracks == 0,
    {
        let n: usize = vars.len();
        proof {
            assert(2 * n + 2 < usize::MAX) by (nonlinear_arith)
                requires
                    n >= 0,
                    4 * n * n <= usize::MAX,
                    usize::MAX >= 0xffff_ffff,
                    n <= 0x1000_0000_0000_0000,
            ;
        }
        IntUniqueBoundsCumulativeSlack {
            bounds: IntUniqueBounds::new(vars),
            cached_lb: vec![0; n],
            cached_ub: vec![0; n],
            s_bounds: Vec::new(),
            slack: Vec::new(),
            working: Vec::new(),
            var_updated: set_new(),
            pending_backtrack: false,
            cache_valid: false,
            prop_calls: 0,
            prop_full: 0,
            prop_skips: 0,
            prop_pushes: 0,
            prop_failures: 0,
            prop_check_failures: 0,
            prop_backtracks: 0,
        }
    }

    /// The entry of the working table.
    fn working_cell(&self, l: usize, u: usize) -> (r: IntVal)
        requires
            self.tabled(),
            self.working.len() == self.slack.len(),
            l < self.s_bounds.len(),
            u < self.s_bounds.len(),
        ensures
            r == cell(self.working@, self.s_bounds.len() as int, l as int, u as int),
    {
        proof {
            lemma_cell(self.s_bounds.len() as int, l as int, u as int);
            assert(l * self.s_bounds.len() >= 0) by (nonlinear_arith)
                requires
                    l >= 0,
                    self.s_bounds.len() >= 0,
            ;
        }
        self.working[l * self.s_bounds.len() + u]
    }

    /// Decrease an entry of the working table.
    fn working_dec(&mut self, l: usize, u: usize)
        requires
            old(self).tabled(),
            old(self).working.len() == old(self).slack.len(),
            l < old(self).s_bounds.len(),
            u < old(self).s_bounds.len(),
            cell(old(self).working@, old(self).s_bounds.len() as int, l as int, u as int)
                > IntVal::MIN,
        ensures
            final(self).same_but_working(old(self)),
            final(self).same_runs(old(self)),
            final(self).prop_pushes == old(self).prop_pushes,
            final(self).working.len() == old(self).working.len(),
            forall|a: int, b: int|
                #![trigger cell(final(self).working@, old(self).s_bounds.len() as int, a, b)]
                0 <= a < old(self).s_bounds.len() && 0 <= b < old(self).s_bounds.len() ==> cell(
                    final(self).working@,
                    old(self).s_bounds.len() as int,
                    a,
                    b,
                ) == cell(old(self).working@, old(self).s_bounds.len() as int, a, b) - if a == l
                    && b == u {
                    1int
                } else {
                    0int
                },
    {
        let ghost m = self.s_bounds.len() as int;
        let ghost before = self.working@;
        proof {
            lemma_cell(m, l as int, u as int);
            assert(l * m >= 0) by (nonlinear_arith)
                requires
                    l >= 0,
                    m >= 0,
            ;
        }
        let at: usize = l * self.s_bounds.len() + u;
        let v: IntVal = self.working[at];
        self.working.set(at, v - 1);
        proof {
            assert forall|a: int, b: int|
                #![trigger cell(self.working@, m, a, b)]
                0 <= a < m && 0 <= b < m implies cell(self.working@, m, a, b) == cell(
                before,
                m,
                a,
                b,
            ) - if a == l && b == u {
                1int
            } else {
                0int
            } by {
                lemma_cell(m, a, b);
                if a * m + b == at {
                    lemma_cells_apart(m, a, b, l as int, u as int);
                }
            }
        }
    }

    /// The rank of a value among the remembered bounds, or their number if the value exceeds all
    /// of them.
    fn rank(&self, v: IntVal) -> (r: Option<usize>)
        requires
            ascending(self.s_bounds@),
        ensures
            match r {
                Some(k) => if k < self.s_bounds.len() {
                    self.s_bounds[k as int] == v
                } else {
                    k == self.s_bounds.len() && forall|i: int|
                        0 <= i < self.s_bounds.len() ==> #[trigger] self.s_bounds[i] < v
                },
                None => !self.s_bounds@.contains(v) && exists|i: int|
                    0 <= i < self.s_bounds.len() && #[trigger] self.s_bounds[i] > v,
            },
    {
        let mut lo: usize = 0;
        let mut hi: usize = self.s_bounds.len();
        while lo < hi
            invariant
                lo <= hi <= self.s_bounds.len(),
                ascending(self.s_bounds@),
                forall|k: int| 0 <= k < lo ==> #[trigger] self.s_bounds@[k] < v,
                forall|k: int| hi <= k < self.s_bounds.len() ==> #[trigger] self.s_bounds@[k] >= v,
            decreases hi - lo,
        {
            let mid: usize = lo + (hi - lo) / 2;
            if self.s_bounds[mid] < v {
                proof {
                    assert forall|k: int| 0 <= k < mid + 1 implies #[trigger] self.s_bounds@[k] < v by {
                        if k < mid {
                            assert(self.s_bounds@[k] < self.s_bounds@[mid as int]);
                        }
                    }
                }
                lo = mid + 1;
            } else {
                proof {
                    assert forall|k: int|
                        mid <= k < self.s_bounds.len() implies #[trigger] self.s_bounds@[k] >= v by {
                        if k > mid {
                            assert(self.s_bounds@[mid as int] < self.s_bounds@[k]);
                        }
                    }
                }
                hi = mid;
            }
        }
        if lo == self.s_bounds.len() || self.s_bounds[lo] == v {
            Some(lo)
        } else {
            proof {
                if self.s_bounds@.contains(v) {
                    let k = self.s_bounds@.index_of(v);
                    assert(self.s_bounds@[k] == v);
                    if k > lo {
                        assert(self.s_bounds@[lo as int] < self.s_bounds@[k]);
                    }
                }
            }
            assert(self.s_bounds[lo as int] > v);
            None
        }
    }

    /// The rank of a value that is one of the remembered bounds.
    fn known_rank(&self, v: IntVal) -> (r: Option<usize>)
        requires
            ascending(self.s_bounds@),
        ensures
            match r {
                Some(k) => k < self.s_bounds.len() && self.s_bounds[k as int] == v,
                None => !self.s_bounds@.contains(v),
            },
    {
        match self.rank(v) {
            Some(k) => {
                if k < self.s_bounds.len() {
                    Some(k)
                } else {
                    None
                }
            },
            None => None,
        }
    }

    /// Whether an interval from a rank before `l_hi` and from `l_lo` on, up to a rank from `u_lo`
    /// on and before `u_hi`, has no values left.
    fn used_up_within(&self, l_lo: usize, l_hi: usize, u_lo: usize, u_hi: usize) -> (r: bool)
        requires
            self.tabled(),
            self.working.len() == self.slack.len(),
            l_hi <= self.s_bounds.len(),
            u_hi <= self.s_bounds.len(),
        ensures
            r == (exists|l: int, u: int|
                #![trigger cell(self.working@, self.s_bounds.len() as int, l, u)]
                l_lo <= l < l_hi && u_lo <= u < u_hi && cell(
                    self.working@,
                    self.s_bounds.len() as int,
                    l,
                    u,
                ) <= 0),
    {
        let ghost m = self.s_bounds.len() as int;
        let mut l: usize = l_lo;
        while l < l_hi
            invariant
                l_lo <= l,
                self.tabled(),
                self.working.len() == self.slack.len(),
                l_hi <= self.s_bounds.len(),
                u_hi <= self.s_bounds.len(),
                m == self.s_bounds.len(),
                forall|a: int, b: int|
                    #![trigger cell(self.working@, m, a, b)]
                    l_lo <= a < l && a < l_hi && u_lo <= b < u_hi ==> cell(self.working@, m, a, b)
                        > 0,
            decreases l_hi - l,
        {
            let mut u: usize = u_lo;
            while u < u_hi
                invariant
                    l_lo <= l < l_hi,
                    u_lo <= u,
                    self.tabled(),
                    self.working.len() == self.slack.len(),
                    l_hi <= self.s_bounds.len(),
                    u_hi <= self.s_bounds.len(),
                    m == self.s_bounds.len(),
                    forall|a: int, b: int|
                        #![trigger cell(self.working@, m, a, b)]
                        l_lo <= a < l && u_lo <= b < u_hi ==> cell(self.working@, m, a, b) > 0,
                    forall|b: int|
                        u_lo <= b < u && b < u_hi ==> #[trigger] cell(
                            self.working@,
                            m,
                            l as int,
                            b,
                        ) > 0,
                decreases u_hi - u,
            {
                if self.working_cell(l, u) <= 0 {
                    assert(cell(self.working@, m, l as int, u as int) <= 0);
                    return true;
                }
                u = u + 1;
            }
            l = l + 1;
        }
        false
    }

    /// Remember the critical bounds, and how many values the intervals have to spare.
    fn rebuild_slack(&mut self)
        requires
            old(self).wf(),
            bounds_limited(old(self).cached_lb@, old(self).cached_ub@),
        ensures
            final(self).tabled(),
            final(self).bounds == old(self).bounds,
            final(self).cached_lb == old(self).cached_lb,
            final(self).cached_ub == old(self).cached_ub,
            final(self).working == old(self).working,
            final(self).var_updated == old(self).var_updated,
            final(self).pending_backtrack == old(self).pending_backtrack,
            final(self).cache_valid == old(self).cache_valid,
            final(self).same_counters(old(self)),
    {
        let s: Vec<IntVal> = critical_values(&self.cached_lb, &self.cached_ub);
        proof {
            let n = self.cached_lb.len() as int;
            let m = s.len() as int;
            assert(m * m <= 4 * n * n) by (nonlinear_arith)
                requires
                    0 <= m <= 2 * n,
            ;
        }
        self.slack = slack_table(&s, &self.cached_lb, &self.cached_ub);
        self.s_bounds = s;
    }

    /// Remember the bounds of the views.
    fn snapshot_after_full(&mut self, ctx: &SolvingContext)
        requires
            old(self).wf(),
            ctx.wf(),
            has_views(ctx, old(self).vars()),
        ensures
            final(self).wf(),
            final(self).cache_valid,
            final(self).bounds == old(self).bounds,
            final(self).var_updated == old(self).var_updated,
            final(self).pending_backtrack == old(self).pending_backtrack,
            final(self).same_counters(old(self)),
            final(self).current(ctx),
            forall|k: int|
                0 <= k < final(self).vars().len() ==> (#[trigger] final(self).cached_lb[k])
                    == ctx.view_min(final(self).vars()[k]) && final(self).cached_ub[k]
                    == ctx.view_max(final(self).vars()[k]),
    {
        self.cache_valid = false;
        let mut i: usize = 0;
        while i < self.bounds.var.len()
            invariant
                i <= self.vars().len(),
                self.wf(),
                !self.cache_valid,
                ctx.wf(),
                has_views(ctx, self.vars()),
                self.bounds == old(self).bounds,
                self.var_updated == old(self).var_updated,
                self.pending_backtrack == old(self).pending_backtrack,
                self.same_counters(old(self)),
                forall|k: int|
                    0 <= k < i ==> (#[trigger] self.cached_lb[k]) == ctx.view_min(self.vars()[k])
                        && self.cached_ub[k] == ctx.view_max(self.vars()[k]) && in_limits(
                        self.cached_lb[k] as int,
                    ) && in_limits(self.cached_ub[k] as int),
            decreases self.vars().len() - i,
        {
            proof {
                assert(ctx.has_view(self.vars()[i as int]));
            }
            let (lb, ub): (IntVal, IntVal) = ctx.bounds(self.bounds.var[i]);
            let ghost (lbs, ubs) = (self.cached_lb@, self.cached_ub@);
            self.cached_lb.set(i, lb);
            self.cached_ub.set(i, ub);
            proof {
                assert(self.cached_lb@ == lbs.update(i as int, lb));
                assert(self.cached_ub@ == ubs.update(i as int, ub));
                assert forall|k: int| 0 <= k < i + 1 implies (#[trigger] self.cached_lb[k])
                    == ctx.view_min(self.vars()[k]) && self.cached_ub[k] == ctx.view_max(
                    self.vars()[k],
                ) && in_limits(self.cached_lb[k] as int) && in_limits(self.cached_ub[k] as int) by {
                    if k < i {
                        assert(lbs[k] == ctx.view_min(self.vars()[k]));
                    }
                }
            }
            i = i + 1;
        }
        proof {
            assert forall|k: int| 0 <= k < self.cached_lb@.len() implies in_limits(
                (#[trigger] self.cached_lb@[k]) as int,
            ) && in_limits(self.cached_ub@[k] as int) by {
                assert(self.cached_lb[k] == ctx.view_min(self.vars()[k]));
            }
        }
        self.rebuild_slack();
        self.cache_valid = true;
        proof {
            assert forall|k: int|
                0 <= k < self.vars().len() implies self.cached_lb[k] <= ctx.view_min(
                #[trigger] self.vars()[k],
            ) && ctx.view_max(self.vars()[k]) <= self.cached_ub[k] by {
                assert(self.cached_lb[k] == ctx.view_min(self.vars()[k]));
            }
        }
    }

    /// The shortest interval from the rank `l` up to the rank `j` that has no values left.
    fn find_zero_slack_row_lb(&self, l: usize, j: usize) -> (r: Option<(usize, usize)>)
        requires
            self.tabled(),
            self.working.len() == self.slack.len(),
            l < self.s_bounds.len(),
            j < self.s_bounds.len(),
        ensures
            match r {
                Some((a, b)) => a == l && row_hit(
                    self.s_bounds@,
                    self.working@,
                    a as int,
                    b as int,
                    j as int,
                ),
                None => row_free(self.s_bounds@, self.working@, l as int, j as int),
            },
    {
        let mut u: usize = l + 1;
        while u <= j
            invariant
                l < u,
                j < self.s_bounds.len(),
                self.tabled(),
                self.working.len() == self.slack.len(),
                l < self.s_bounds.len(),
                forall|v: int|
                    l < v < u ==> #[trigger] cell(
                        self.working@,
                        self.s_bounds@.len() as int,
                        l as int,
                        v,
                    ) > 0,
            decreases j + 1 - u,
        {
            if self.working_cell(l, u) <= 0 {
                return Some((l, u));
            }
            u = u + 1;
        }
        None
    }

    /// The shortest interval from a rank of at least `l_lo` up to the rank `u` that has no
    /// values left.
    fn find_zero_slack_col_ub(&self, l_lo: usize, u: usize) -> (r: Option<(usize, usize)>)
        requires
            self.tabled(),
            self.working.len() == self.slack.len(),
            1 <= l_lo,
            u < self.s_bounds.len(),
        ensures
            match r {
                Some((a, b)) => b == u && col_hit(
                    self.s_bounds@,
                    self.working@,
                    a as int,
                    b as int,
                    l_lo - 1,
                ),
                None => col_free(self.s_bounds@, self.working@, u as int, l_lo - 1),
            },
    {
        let mut l: usize = u;
        while l > l_lo
            invariant
                l <= u,
                1 <= l_lo,
                u < self.s_bounds.len(),
                self.tabled(),
                self.working.len() == self.slack.len(),
                forall|k: int|
                    l <= k < u ==> #[trigger] cell(
                        self.working@,
                        self.s_bounds@.len() as int,
                        k,
                        u as int,
                    ) > 0,
            decreases l,
        {
            l = l - 1;
            if self.working_cell(l, u) <= 0 {
                return Some((l, u));
            }
        }
        None
    }

    /// Push a lower bound past the intervals that have no values left.
    pub fn phase1_push_lb(&self, new_lb: IntVal, new_ub: IntVal, j: usize) -> (r: Phase1Outcome)
        requires
            self.tabled(),
            self.working.len() == self.slack.len(),
            j < self.s_bounds.len(),
            new_lb <= new_ub,
        ensures
            match r {
                Phase1Outcome::Done(end, chain) => {
                    &&& climbs(self.s_bounds@, self.working@, new_lb as int, j as int, chain@)
                    &&& end == climb_end(self.s_bounds@, new_lb as int, chain@)
                    &&& end <= new_ub
                    &&& exists|k: int|
                        0 <= k < self.s_bounds.len() && #[trigger] self.s_bounds@[k] == end
                            && row_free(self.s_bounds@, self.working@, k, j as int)
                },
                Phase1Outcome::WipeOut(l, u) => exists|chain: Seq<(usize, usize)>|
                    chain.len() > 0 && chain.last() == (l, u) && #[trigger] climbs(
                        self.s_bounds@,
                        self.working@,
                        new_lb as int,
                        j as int,
                        chain,
                    ) && self.s_bounds[u as int] > new_ub && climb_end(
                        self.s_bounds@,
                        new_lb as int,
                        chain.drop_last(),
                    ) <= new_ub,
                Phase1Outcome::BoundsMiss => !self.s_bounds@.contains(new_lb),
            },
    {
        let mut effective: IntVal = new_lb;
        let mut chain: Vec<(usize, usize)> = Vec::new();
        loop
            invariant
                self.tabled(),
                self.working.len() == self.slack.len(),
                j < self.s_bounds.len(),
                climbs(self.s_bounds@, self.working@, new_lb as int, j as int, chain@),
                effective == climb_end(self.s_bounds@, new_lb as int, chain@),
                effective <= new_ub,
                chain@.len() > 0 ==> self.s_bounds@.contains(effective),
            decreases new_ub - effective,
        {
            match self.known_rank(effective) {
                None => {
                    return Phase1Outcome::BoundsMiss;
                },
                Some(low) => {
                    match self.find_zero_slack_row_lb(low, j) {
                        None => {
                            proof {
                                assert(self.s_bounds@[low as int] == effective);
                            }
                            return Phase1Outcome::Done(effective, chain);
                        },
                        Some((l, u)) => {
                            let ghost before = chain@;
                            chain.push((l, u));
                            proof {
                                assert(chain@.drop_last() == before);
                                assert(self.s_bounds@[l as int] < self.s_bounds@[u as int]);
                                assert(climbs(
                                    self.s_bounds@,
                                    self.working@,
                                    new_lb as int,
                                    j as int,
                                    chain@,
                                ));
                            }
                            effective = self.s_bounds[u];
                            if effective > new_ub {
                                return Phase1Outcome::WipeOut(l, u);
                            }
                        },
                    }
                },
            }
        }
    }

    /// Push an upper bound past the intervals that have no values left.
    pub fn phase1_push_ub(&self, new_lb: IntVal, new_ub: IntVal, r_lb: usize) -> (r: Phase1Outcome)
        requires
            self.tabled(),
            self.working.len() == self.slack.len(),
            r_lb < self.s_bounds.len(),
            self.s_bounds[r_lb as int] == new_lb,
            in_limits(new_lb as int),
            in_limits(new_ub as int),
            new_lb <= new_ub,
        ensures
            match r {
                Phase1Outcome::Done(end, chain) => {
                    &&& sinks(self.s_bounds@, self.working@, new_ub as int, r_lb as int, chain@)
                    &&& end == sink_end(self.s_bounds@, new_ub as int, chain@)
                    &&& end >= new_lb
                    &&& exists|k: int|
                        0 <= k < self.s_bounds.len() && #[trigger] self.s_bounds@[k] == end + 1
                            && col_free(self.s_bounds@, self.working@, k, r_lb as int)
                },
                Phase1Outcome::WipeOut(l, u) => false,
                Phase1Outcome::BoundsMiss => !self.s_bounds@.contains((new_ub + 1) as IntVal),
            },
    {
        let mut effective: IntVal = new_ub;
        let mut chain: Vec<(usize, usize)> = Vec::new();
        loop
            invariant
                self.tabled(),
                self.working.len() == self.slack.len(),
                r_lb < self.s_bounds.len(),
                self.s_bounds[r_lb as int] == new_lb,
                in_limits(new_lb as int),
                new_lb <= effective <= new_ub,
                in_limits(new_ub as int),
                sinks(self.s_bounds@, self.working@, new_ub as int, r_lb as int, chain@),
                effective == sink_end(self.s_bounds@, new_ub as int, chain@),
                chain@.len() > 0 ==> self.s_bounds@.contains((effective + 1) as IntVal),
            decreases effective - new_lb,
        {
            match self.known_rank(effective + 1) {
                None => {
                    return Phase1Outcome::BoundsMiss;
                },
                Some(high) => {
                    match self.find_zero_slack_col_ub(r_lb + 1, high) {
                        None => {
                            proof {
                                assert(self.s_bounds@[high as int] == effective + 1);
                            }
                            return Phase1Outcome::Done(effective, chain);
                        },
                        Some((l, u)) => {
                            let ghost before = chain@;
                            chain.push((l, u));
                            proof {
                                assert(chain@.drop_last() == before);
                                assert(self.s_bounds@[l as int] < self.s_bounds@[u as int]);
                                assert(self.s_bounds@[r_lb as int] < self.s_bounds@[l as int]);
                                assert(sinks(
                                    self.s_bounds@,
                                    self.working@,
                                    new_ub as int,
                                    r_lb as int,
                                    chain@,
                                ));
                            }
                            effective = self.s_bounds[l] - 1;
                            proof {
                                assert(self.s_bounds@[l as int] == effective + 1);
                                assert(self.s_bounds@.contains((effective + 1) as IntVal));
                            }
                            if effective < new_lb {
                                return Phase1Outcome::WipeOut(l, u);
                            }
                        },
                    }
                },
            }
        }
    }

    /// Look at the intervals of a rectangle of the table.
    pub fn phase2_scan(&self, l_lo: usize, l_hi: usize, u_lo: usize, u_hi: usize) -> (r:
        Phase2Outcome)
        requires
            self.tabled(),
            self.working.len() == self.slack.len(),
            l_hi <= self.s_bounds.len(),
            u_hi <= self.s_bounds.len(),
        ensures
            ({
                let m = self.s_bounds.len() as int;
                match r {
                    Phase2Outcome::Clean => forall|l: int, u: int|
                        #![trigger cell(self.working@, m, l, u)]
                        in_rect(l, u, l_lo as int, l_hi as int, u_lo as int, u_hi as int) ==> cell(
                            self.working@,
                            m,
                            l,
                            u,
                        ) > 1,
                    Phase2Outcome::NewHallWouldForm => {
                        &&& forall|l: int, u: int|
                            #![trigger cell(self.working@, m, l, u)]
                            in_rect(l, u, l_lo as int, l_hi as int, u_lo as int, u_hi as int)
                                ==> cell(self.working@, m, l, u) >= 1
                        &&& exists|l: int, u: int|
                            #![trigger cell(self.working@, m, l, u)]
                            in_rect(l, u, l_lo as int, l_hi as int, u_lo as int, u_hi as int)
                                && cell(self.working@, m, l, u) == 1
                    },
                    Phase2Outcome::Overcrowded(l, u) => {
                        &&& in_rect(
                            l as int,
                            u as int,
                            l_lo as int,
                            l_hi as int,
                            u_lo as int,
                            u_hi as int,
                        )
                        &&& cell(self.working@, m, l as int, u as int) <= 0
                    },
                }
            }),
    {
        let ghost m = self.s_bounds.len() as int;
        let mut new_hall: bool = false;
        let ghost mut hall: (int, int) = (0, 0);
        let mut l: usize = l_lo;
        while l < l_hi
            invariant
                self.tabled(),
                self.working.len() == self.slack.len(),
                l_hi <= self.s_bounds.len(),
                u_hi <= self.s_bounds.len(),
                m == self.s_bounds.len(),
                l_lo <= l,
                forall|a: int, b: int|
                    #![trigger cell(self.working@, m, a, b)]
                    in_rect(a, b, l_lo as int, l_hi as int, u_lo as int, u_hi as int) && a < l
                        ==> cell(self.working@, m, a, b) >= 1 && (new_hall || cell(
                        self.working@,
                        m,
                        a,
                        b,
                    ) > 1),
                new_hall ==> in_rect(
                    hall.0,
                    hall.1,
                    l_lo as int,
                    l_hi as int,
                    u_lo as int,
                    u_hi as int,
                ) && cell(self.working@, m, hall.0, hall.1) == 1,
            decreases l_hi - l,
        {
            let mut u: usize = u_lo;
            while u < u_hi
                invariant
                    self.tabled(),
                    self.working.len() == self.slack.len(),
                    l_hi <= self.s_bounds.len(),
                    u_hi <= self.s_bounds.len(),
                    m == self.s_bounds.len(),
                    l_lo <= l < l_hi,
                    u_lo <= u,
                    forall|a: int, b: int|
                        #![trigger cell(self.working@, m, a, b)]
                        in_rect(a, b, l_lo as int, l_hi as int, u_lo as int, u_hi as int) && (a < l
                            || (a == l && b < u)) ==> cell(self.working@, m, a, b) >= 1 && (
                        new_hall || cell(self.working@, m, a, b) > 1),
                    new_hall ==> in_rect(
                        hall.0,
                        hall.1,
                        l_lo as int,
                        l_hi as int,
                        u_lo as int,
                        u_hi as int,
                    ) && cell(self.working@, m, hall.0, hall.1) == 1,
                decreases u_hi - u,
            {
                if l < u {
                    let v: IntVal = self.working_cell(l, u);
                    if v <= 0 {
                        return Phase2Outcome::Overcrowded(l, u);
                    }
                    if v == 1 {
                        new_hall = true;
                        proof {
                            hall = (l as int, u as int);
                        }
                    }
                }
                u = u + 1;
            }
            l = l + 1;
        }
        if new_hall {
            Phase2Outcome::NewHallWouldForm
        } else {
            Phase2Outcome::Clean
        }
    }

    /// Take a value from the intervals of a rectangle of the table.
    pub fn phase3_decrement(&mut self, l_lo: usize, l_hi: usize, u_lo: usize, u_hi: usize)
        requires
            old(self).tabled(),
            old(self).working.len() == old(self).slack.len(),
            l_hi <= old(self).s_bounds.len(),
            u_hi <= old(self).s_bounds.len(),
            forall|l: int, u: int|
                #![trigger cell(old(self).working@, old(self).s_bounds.len() as int, l, u)]
                in_rect(l, u, l_lo as int, l_hi as int, u_lo as int, u_hi as int) ==> cell(
                    old(self).working@,
                    old(self).s_bounds.len() as int,
                    l,
                    u,
                ) >= 1,
        ensures
            final(self).same_but_working(old(self)),
            final(self).same_runs(old(self)),
            final(self).prop_pushes == old(self).prop_pushes,
            final(self).working.len() == old(self).working.len(),
            ({
                let m = old(self).s_bounds.len() as int;
                forall|l: int, u: int|
                    #![trigger cell(final(self).working@, m, l, u)]
                    0 <= l < m && 0 <= u < m ==> cell(final(self).working@, m, l, u) == cell(
                        old(self).working@,
                        m,
                        l,
                        u,
                    ) - if in_rect(l, u, l_lo as int, l_hi as int, u_lo as int, u_hi as int) {
                        1int
                    } else {
                        0int
                    }
            }),
    {
        let ghost m = self.s_bounds.len() as int;
        let ghost before = self.working@;
        let mut l: usize = l_lo;
        while l < l_hi
            invariant
                self.same_but_working(old(self)),
                self.same_runs(old(self)),
                self.prop_pushes == old(self).prop_pushes,
                self.tabled(),
                self.working.len() == old(self).working.len(),
                self.working.len() == self.slack.len(),
                l_hi <= self.s_bounds.len(),
                u_hi <= self.s_bounds.len(),
                m == self.s_bounds.len(),
                before == old(self).working@,
                l_lo <= l,
                forall|a: int, b: int|
                    #![trigger cell(before, m, a, b)]
                    in_rect(a, b, l_lo as int, l_hi as int, u_lo as int, u_hi as int) ==> cell(
                        before,
                        m,
                        a,
                        b,
                    ) >= 1,
                forall|a: int, b: int|
                    #![trigger cell(self.working@, m, a, b)]
                    0 <= a < m && 0 <= b < m ==> cell(self.working@, m, a, b) == cell(
                        before,
                        m,
                        a,
                        b,
                    ) - if in_rect(a, b, l_lo as int, l_hi as int, u_lo as int, u_hi as int) && a
                        < l {
                        1int
                    } else {
                        0int
                    },
            decreases l_hi - l,
        {
            let mut u: usize = u_lo;
            while u < u_hi
                invariant
                    self.same_but_working(old(self)),
                    self.same_runs(old(self)),
                    self.prop_pushes == old(self).prop_pushes,
                    self.tabled(),
                    self.working.len() == old(self).working.len(),
                    self.working.len() == self.slack.len(),
                    l_hi <= self.s_bounds.len(),
                    u_hi <= self.s_bounds.len(),
                    m == self.s_bounds.len(),
                    before == old(self).working@,
                    l_lo <= l < l_hi,
                    u_lo <= u,
                    forall|a: int, b: int|
                        #![trigger cell(before, m, a, b)]
                        in_rect(a, b, l_lo as int, l_hi as int, u_lo as int, u_hi as int) ==> cell(
                            before,
                            m,
                            a,
                            b,
                        ) >= 1,
                    forall|a: int, b: int|
                        #![trigger cell(self.working@, m, a, b)]
                        0 <= a < m && 0 <= b < m ==> cell(self.working@, m, a, b) == cell(
                            before,
                            m,
                            a,
                            b,
                        ) - if in_rect(a, b, l_lo as int, l_hi as int, u_lo as int, u_hi as int)
                            && (a < l || (a == l && b < u)) {
                            1int
                        } else {
                            0int
                        },
                decreases u_hi - u,
            {
                if l < u {
                    proof {
                        assert(cell(before, m, l as int, u as int) >= 1);
                        assert(cell(self.working@, m, l as int, u as int) == cell(
                            before,
                            m,
                            l as int,
                            u as int,
                        ));
                    }
                    self.working_dec(l, u);
                }
                u = u + 1;
            }
            l = l + 1;
        }
    }
}

/// A conjunction with another literal.
proof fn lemma_all_hold_push(
    atoms: Seq<BoolView>,
    b: BoolView,
    ints: IntAssignment,
    bools: BoolAssignment,
)
    ensures
        all_hold(atoms.push(b), ints, bools) == (all_hold(atoms, ints, bools) && b.holds(
            ints,
            bools,
        )),
{
    let more = atoms.push(b);
    if all_hold(more, ints, bools) {
        assert forall|i: int| 0 <= i < atoms.len() implies (#[trigger] atoms[i]).holds(
            ints,
            bools,
        ) by {
            assert(more[i] == atoms[i]);
        }
        assert(more[atoms.len() as int].holds(ints, bools));
    }
    if all_hold(atoms, ints, bools) && b.holds(ints, bools) {
        assert forall|i: int| 0 <= i < more.len() implies (#[trigger] more[i]).holds(
            ints,
            bools,
        ) by {
            if i < atoms.len() {
                assert(atoms[i].holds(ints, bools));
            }
        }
    }
}

/// Whether the views that an interval held at the last fixed point, but for one, take values of
/// the interval. Only the first `n` views count.
pub open spec fn interval_kept(
    prop: &IntUniqueBoundsCumulativeSlack,
    i: int,
    l: int,
    u: int,
    n: int,
    ints: IntAssignment,
    bools: BoolAssignment,
) -> bool {
    forall|k: int|
        0 <= k < n && k != i && encloses(
            prop.cached_lb@,
            prop.cached_ub@,
            prop.s_bounds[l] as int,
            prop.s_bounds[u] as int,
            k,
        ) ==> prop.s_bounds[l] <= (#[trigger] prop.vars()[k]).eval(ints, bools)
            < prop.s_bounds[u]
}

/// Whether the first `n` intervals of the chain hold what they held at the last fixed point.
pub open spec fn chain_kept(
    prop: &IntUniqueBoundsCumulativeSlack,
    i: int,
    chain: Seq<(usize, usize)>,
    n: int,
    ints: IntAssignment,
    bools: BoolAssignment,
) -> bool {
    forall|t: int|
        0 <= t < n ==> interval_kept(
            prop,
            i,
            (#[trigger] chain[t]).0 as int,
            chain[t].1 as int,
            prop.vars().len() as int,
            ints,
            bools,
        )
}

/// Whether the literals say that the view has the bound `from`, and that the intervals hold what
/// they held at the last fixed point.
pub open spec fn says_chain(
    prop: &IntUniqueBoundsCumulativeSlack,
    i: int,
    upper: bool,
    from: int,
    chain: Seq<(usize, usize)>,
    atoms: Seq<BoolView>,
) -> bool {
    forall|ints: IntAssignment, bools: BoolAssignment| #[trigger]
        all_hold(atoms, ints, bools) <==> (if upper {
            prop.vars()[i].eval(ints, bools) <= from
        } else {
            prop.vars()[i].eval(ints, bools) >= from
        }) && chain_kept(prop, i, chain, chain.len() as int, ints, bools)
}

/// Whether the consequence is that the intervals push the bound `from` of the view, for the sole
/// reason that it has this bound and that they hold what they held at the last fixed point.
pub open spec fn pushed_along(
    prop: &IntUniqueBoundsCumulativeSlack,
    i: int,
    upper: bool,
    from: int,
    chain: Seq<(usize, usize)>,
    c: LitPropagation,
) -> bool {
    &&& 0 <= i < prop.vars().len()
    &&& forall|ints: IntAssignment, bools: BoolAssignment| #[trigger]
        c.lit.holds(ints, bools) == if upper {
            prop.vars()[i].eval(ints, bools) <= sink_end(prop.s_bounds@, from, chain)
        } else {
            prop.vars()[i].eval(ints, bools) >= climb_end(prop.s_bounds@, from, chain)
        }
    &&& exists|atoms: Vec<BoolView>| #[trigger]
        ReasonBuilder::Atoms(atoms).builds(c.reason) && says_chain(
            prop,
            i,
            upper,
            from,
            chain,
            atoms@,
        )
}

/// Whether the consequence is of this kind.
pub open spec fn pushed_by_chain(prop: &IntUniqueBoundsCumulativeSlack, c: LitPropagation) -> bool {
    exists|i: int, upper: bool, from: int, chain: Seq<(usize, usize)>| #[trigger]
        pushed_along(prop, i, upper, from, chain, c)
}

/// Whether all consequences since are of this kind.
pub open spec fn all_by_chains(
    prop: &IntUniqueBoundsCumulativeSlack,
    before: &SolvingContext,
    ctx: &SolvingContext,
) -> bool {
    forall|q: int|
        before.propagation_queue.len() <= q < ctx.propagation_queue.len() ==> pushed_by_chain(
            prop,
            #[trigger] ctx.propagation_queue[q],
        )
}

/// Bounds are pushed one after another.
proof fn lemma_by_chains_join(
    g: &IntUniqueBoundsCumulativeSlack,
    h: &IntUniqueBoundsCumulativeSlack,
    before: &SolvingContext,
    mid: &SolvingContext,
    ctx: &SolvingContext,
)
    requires
        h.same_but_working(g),
        ctx.grows(mid),
        all_by_chains(g, before, mid),
        all_by_chains(h, mid, ctx),
    ensures
        all_by_chains(g, before, ctx),
{
    let n = mid.propagation_queue.len() as int;
    assert forall|q: int|
        before.propagation_queue.len() <= q < ctx.propagation_queue.len() implies pushed_by_chain(
        g,
        #[trigger] ctx.propagation_queue[q],
    ) by {
        let c = ctx.propagation_queue[q];
        if q < n {
            assert(ctx.propagation_queue@.take(n)[q] == mid.propagation_queue[q]);
            assert(pushed_by_chain(g, mid.propagation_queue[q]));
        } else {
            lemma_by_chain_same(g, h, c);
        }
    }
}

/// How many values are left does not matter to what a push rests on.
proof fn lemma_by_chain_same(
    g: &IntUniqueBoundsCumulativeSlack,
    h: &IntUniqueBoundsCumulativeSlack,
    c: LitPropagation,
)
    requires
        h.same_but_working(g),
        pushed_by_chain(h, c),
    ensures
        pushed_by_chain(g, c),
{
    let (i, upper, from, chain) = choose|
        i: int,
        upper: bool,
        from: int,
        chain: Seq<(usize, usize)>,
    | #[trigger]
        pushed_along(h, i, upper, from, chain, c);
    let atoms = choose|atoms: Vec<BoolView>| #[trigger]
        ReasonBuilder::Atoms(atoms).builds(c.reason) && says_chain(
            h,
            i,
            upper,
            from,
            chain,
            atoms@,
        );
    lemma_says_chain_same(g, h, i, upper, from, chain, atoms@);
    assert(pushed_along(g, i, upper, from, chain, c));
}

proof fn lemma_says_chain_same(
    g: &IntUniqueBoundsCumulativeSlack,
    h: &IntUniqueBoundsCumulativeSlack,
    i: int,
    upper: bool,
    from: int,
    chain: Seq<(usize, usize)>,
    atoms: Seq<BoolView>,
)
    requires
        h.same_but_working(g),
        says_chain(h, i, upper, from, chain, atoms),
    ensures
        says_chain(g, i, upper, from, chain, atoms),
{
    assert forall|ints: IntAssignment, bools: BoolAssignment| #[trigger]
        all_hold(atoms, ints, bools) <==> (if upper {
            g.vars()[i].eval(ints, bools) <= from
        } else {
            g.vars()[i].eval(ints, bools) >= from
        }) && chain_kept(g, i, chain, chain.len() as int, ints, bools) by {
        if chain_kept(h, i, chain, chain.len() as int, ints, bools) {
            lemma_chain_kept_same(g, h, i, chain, ints, bools);
        }
        if chain_kept(g, i, chain, chain.len() as int, ints, bools) {
            lemma_chain_kept_same(h, g, i, chain, ints, bools);
        }
    }
}

/// Whether the views that lie in an interval take values of the interval. Only the first `n`
/// views count.
pub open spec fn crowd_kept(
    ctx: &SolvingContext,
    vars: Seq<IntView>,
    a: int,
    b: int,
    n: int,
    ints: IntAssignment,
    bools: BoolAssignment,
) -> bool {
    forall|k: int|
        0 <= k < n && a <= ctx.view_min(vars[k]) && ctx.view_max(vars[k]) < b ==> a <= (
        #[trigger] vars[k]).eval(ints, bools) < b
}

/// Whether the conflict says that the views that lie in an interval cannot all take different
/// values.
pub open spec fn is_crowd_conflict(
    ctx: &SolvingContext,
    vars: Seq<IntView>,
    a: int,
    b: int,
    conflict: Conflict,
) -> bool {
    exists|reason: Vec<BoolView>| #[trigger]
        conflict.is_of(None, ReasonBuilder::Atoms(reason)) && forall|
            ints: IntAssignment,
            bools: BoolAssignment,
        |
            #[trigger] all_hold(reason@, ints, bools) <==> crowd_kept(
                ctx,
                vars,
                a,
                b,
                vars.len() as int,
                ints,
                bools,
            )
}

impl IntUniqueBoundsCumulativeSlack {
    /// The reason for pushing a bound of a view: the bound that it had before it was pushed,
    /// and for each interval the views that it held then.
    fn build_push_reason(
        &self,
        ctx: &SolvingContext,
        i: usize,
        anchor: IntLitMeaning,
        chain: &Vec<(usize, usize)>,
    ) -> (r: Vec<BoolView>)
        requires
            self.wf(),
            self.tabled(),
            ctx.wf(),
            has_views(ctx, self.vars()),
            i < self.vars().len(),
            match anchor {
                IntLitMeaning::Eq(v) => -2 * INT_LIMIT <= v <= 2 * INT_LIMIT,
                IntLitMeaning::NotEq(v) => -2 * INT_LIMIT <= v <= 2 * INT_LIMIT,
                IntLitMeaning::GreaterEq(v) => -2 * INT_LIMIT <= v <= 2 * INT_LIMIT,
                IntLitMeaning::Less(v) => -2 * INT_LIMIT <= v <= 2 * INT_LIMIT,
            },
            forall|t: int|
                0 <= t < chain.len() ==> (#[trigger] chain[t]).0 < self.s_bounds.len()
                    && chain[t].1 < self.s_bounds.len(),
        ensures
            forall|ints: IntAssignment, bools: BoolAssignment| #[trigger]
                all_hold(r@, ints, bools) <==> anchor.holds(
                    self.vars()[i as int].eval(ints, bools),
                ) && chain_kept(self, i as int, chain@, chain.len() as int, ints, bools),
    {
        let mut reason: Vec<BoolView> = Vec::new();
        proof {
            assert(ctx.has_view(self.vars()[i as int]));
        }
        let first: BoolView = self.bounds.var[i].lit(anchor);
        let ghost empty = reason@;
        reason.push(first);
        proof {
            assert forall|ints: IntAssignment, bools: BoolAssignment| #[trigger]
                all_hold(reason@, ints, bools) <==> anchor.holds(
                    self.vars()[i as int].eval(ints, bools),
                ) && chain_kept(self, i as int, chain@, 0, ints, bools) by {
                lemma_all_hold_push(empty, first, ints, bools);
            }
        }
        let mut t: usize = 0;
        while t < chain.len()
            invariant
                t <= chain.len(),
                self.wf(),
                self.tabled(),
                ctx.wf(),
                has_views(ctx, self.vars()),
                i < self.vars().len(),
                forall|t: int|
                    0 <= t < chain.len() ==> (#[trigger] chain[t]).0 < self.s_bounds.len()
                        && chain[t].1 < self.s_bounds.len(),
                forall|ints: IntAssignment, bools: BoolAssignment| #[trigger]
                    all_hold(reason@, ints, bools) <==> anchor.holds(
                        self.vars()[i as int].eval(ints, bools),
                    ) && chain_kept(self, i as int, chain@, t as int, ints, bools),
            decreases chain.len() - t,
        {
            let (l, u): (usize, usize) = chain[t];
            let bl: IntVal = self.s_bounds[l];
            let bu: IntVal = self.s_bounds[u];
            let ghost start = reason@;
            proof {
                self.lemma_bound_limited(l as int);
                self.lemma_bound_limited(u as int);
                assert forall|ints: IntAssignment, bools: BoolAssignment| #[trigger]
                    all_hold(reason@, ints, bools) <==> all_hold(start, ints, bools)
                        && interval_kept(self, i as int, l as int, u as int, 0, ints, bools) by {}
            }
            let mut k: usize = 0;
            while k < self.bounds.var.len()
                invariant
                    k <= self.vars().len(),
                    self.wf(),
                    self.tabled(),
                    ctx.wf(),
                    has_views(ctx, self.vars()),
                    i < self.vars().len(),
                    l < self.s_bounds.len(),
                    u < self.s_bounds.len(),
                    bl == self.s_bounds[l as int],
                    bu == self.s_bounds[u as int],
                    -INT_LIMIT <= bl <= INT_LIMIT + 1,
                    -INT_LIMIT <= bu <= INT_LIMIT + 1,
                    forall|ints: IntAssignment, bools: BoolAssignment| #[trigger]
                        all_hold(reason@, ints, bools) <==> all_hold(start, ints, bools)
                            && interval_kept(
                            self,
                            i as int,
                            l as int,
                            u as int,
                            k as int,
                            ints,
                            bools,
                        ),
                decreases self.vars().len() - k,
            {
                let ghost before = reason@;
                if k != i && self.cached_lb[k] >= bl && self.cached_ub[k] < bu {
                    proof {
                        assert(ctx.has_view(self.vars()[k as int]));
                    }
                    let low: BoolView = self.bounds.var[k].lit(IntLitMeaning::GreaterEq(bl));
                    let high: BoolView = self.bounds.var[k].lit(IntLitMeaning::Less(bu));
                    reason.push(low);
                    let ghost mid = reason@;
                    reason.push(high);
                    proof {
                        assert forall|ints: IntAssignment, bools: BoolAssignment| #[trigger]
                            all_hold(reason@, ints, bools) <==> all_hold(start, ints, bools)
                                && interval_kept(
                                self,
                                i as int,
                                l as int,
                                u as int,
                                k + 1,
                                ints,
                                bools,
                            ) by {
                            lemma_all_hold_push(before, low, ints, bools);
                            lemma_all_hold_push(mid, high, ints, bools);
                            assert(all_hold(before, ints, bools) <==> all_hold(start, ints, bools)
                                && interval_kept(
                                self,
                                i as int,
                                l as int,
                                u as int,
                                k as int,
                                ints,
                                bools,
                            ));
                            let e = self.vars()[k as int].eval(ints, bools);
                            assert(low.holds(ints, bools) == (e >= bl));
                            assert(high.holds(ints, bools) == (e < bu));
                        }
                    }
                } else {
                    proof {
                        assert forall|ints: IntAssignment, bools: BoolAssignment| #[trigger]
                            all_hold(reason@, ints, bools) <==> all_hold(start, ints, bools)
                                && interval_kept(
                                self,
                                i as int,
                                l as int,
                                u as int,
                                k + 1,
                                ints,
                                bools,
                            ) by {
                            assert(all_hold(before, ints, bools) <==> all_hold(start, ints, bools)
                                && interval_kept(
                                self,
                                i as int,
                                l as int,
                                u as int,
                                k as int,
                                ints,
                                bools,
                            ));
                        }
                    }
                }
                k = k + 1;
            }
            proof {
                assert forall|ints: IntAssignment, bools: BoolAssignment| #[trigger]
                    all_hold(reason@, ints, bools) <==> anchor.holds(
                        self.vars()[i as int].eval(ints, bools),
                    ) && chain_kept(self, i as int, chain@, t + 1, ints, bools) by {
                    assert(all_hold(start, ints, bools) <==> anchor.holds(
                        self.vars()[i as int].eval(ints, bools),
                    ) && chain_kept(self, i as int, chain@, t as int, ints, bools));
                    if chain_kept(self, i as int, chain@, t + 1, ints, bools) {
                        assert forall|q: int| 0 <= q < t implies interval_kept(
                            self,
                            i as int,
                            (#[trigger] chain@[q]).0 as int,
                            chain@[q].1 as int,
                            self.vars().len() as int,
                            ints,
                            bools,
                        ) by {}
                        assert(interval_kept(
                            self,
                            i as int,
                            chain@[t as int].0 as int,
                            chain@[t as int].1 as int,
                            self.vars().len() as int,
                            ints,
                            bools,
                        ));
                    }
                    if chain_kept(self, i as int, chain@, t as int, ints, bools) && interval_kept(
                        self,
                        i as int,
                        l as int,
                        u as int,
                        self.vars().len() as int,
                        ints,
                        bools,
                    ) {
                        assert forall|q: int| 0 <= q < t + 1 implies interval_kept(
                            self,
                            i as int,
                            (#[trigger] chain@[q]).0 as int,
                            chain@[q].1 as int,
                            self.vars().len() as int,
                            ints,
                            bools,
                        ) by {}
                    }
                }
            }
            t = t + 1;
        }
        reason
    }

    /// The remembered bounds lie within the limits.
    proof fn lemma_bound_limited(&self, l: int)
        requires
            self.tabled(),
            0 <= l < self.s_bounds.len(),
        ensures
            -INT_LIMIT <= self.s_bounds[l] <= INT_LIMIT + 1,
    {
        let s = self.s_bounds@;
        let v = s[l];
        assert(s.contains(v));
        let k = choose|k: int|
            0 <= k < self.cached_lb@.len() && #[trigger] is_end(
                self.cached_lb@,
                self.cached_ub@,
                k,
                v,
            );
        assert(in_limits(self.cached_lb@[k] as int) && in_limits(self.cached_ub@[k] as int));
    }

    /// A conflict of the views that lie in an interval now.
    fn declare_overcrowded_conflict(&self, ctx: &SolvingContext, l: usize, u: usize) -> (r:
        Conflict)
        requires
            self.wf(),
            self.tabled(),
            ctx.wf(),
            has_views(ctx, self.vars()),
            l < self.s_bounds.len(),
            u < self.s_bounds.len(),
        ensures
            is_crowd_conflict(
                ctx,
                self.vars(),
                self.s_bounds[l as int] as int,
                self.s_bounds[u as int] as int,
                r,
            ),
            r.grounded(ctx),
    {
        let bl: IntVal = self.s_bounds[l];
        let bu: IntVal = self.s_bounds[u];
        let mut reason: Vec<BoolView> = Vec::new();
        proof {
            self.lemma_bound_limited(l as int);
            self.lemma_bound_limited(u as int);
        }
        let mut k: usize = 0;
        while k < self.bounds.var.len()
            invariant
                k <= self.vars().len(),
                ctx.wf(),
                has_views(ctx, self.vars()),
                -INT_LIMIT <= bl <= INT_LIMIT + 1,
                -INT_LIMIT <= bu <= INT_LIMIT + 1,
                forall|ints: IntAssignment, bools: BoolAssignment| #[trigger]
                    all_hold(reason@, ints, bools) <==> crowd_kept(
                        ctx,
                        self.vars(),
                        bl as int,
                        bu as int,
                        k as int,
                        ints,
                        bools,
                    ),
            decreases self.vars().len() - k,
        {
            let ghost before = reason@;
            proof {
                assert(ctx.has_view(self.vars()[k as int]));
            }
            let (lb, ub): (IntVal, IntVal) = ctx.bounds(self.bounds.var[k]);
            if lb >= bl && ub < bu {
                let low: BoolView = self.bounds.var[k].lit(IntLitMeaning::GreaterEq(bl));
                let high: BoolView = self.bounds.var[k].lit(IntLitMeaning::Less(bu));
                reason.push(low);
                let ghost mid = reason@;
                reason.push(high);
                proof {
                    assert forall|ints: IntAssignment, bools: BoolAssignment| #[trigger]
                        all_hold(reason@, ints, bools) <==> crowd_kept(
                            ctx,
                            self.vars(),
                            bl as int,
                            bu as int,
                            k + 1,
                            ints,
                            bools,
                        ) by {
                        lemma_all_hold_push(before, low, ints, bools);
                        lemma_all_hold_push(mid, high, ints, bools);
                        assert(all_hold(before, ints, bools) <==> crowd_kept(
                            ctx,
                            self.vars(),
                            bl as int,
                            bu as int,
                            k as int,
                            ints,
                            bools,
                        ));
                        let e = self.vars()[k as int].eval(ints, bools);
                        assert(low.holds(ints, bools) == (e >= bl));
                        assert(high.holds(ints, bools) == (e < bu));
                    }
                }
            } else {
                proof {
                    assert forall|ints: IntAssignment, bools: BoolAssignment| #[trigger]
                        all_hold(reason@, ints, bools) <==> crowd_kept(
                            ctx,
                            self.vars(),
                            bl as int,
                            bu as int,
                            k + 1,
                            ints,
                            bools,
                        ) by {
                        assert(all_hold(before, ints, bools) <==> crowd_kept(
                            ctx,
                            self.vars(),
                            bl as int,
                            bu as int,
                            k as int,
                            ints,
                            bools,
                        ));
                    }
                }
            }
            k = k + 1;
        }
        let ghost atoms = reason;
        let conflict: Conflict = ctx.declare_conflict(ReasonBuilder::Atoms(reason));
        proof {
            assert(conflict.is_of(None, ReasonBuilder::Atoms(atoms)));
            assert forall|ints: IntAssignment, bools: BoolAssignment|
                #[trigger] ctx.admits(ints, bools) implies antecedent(
                conflict.reason,
                ints,
                bools,
            ) by {
                lemma_built_reason_equivalent(
                    ReasonBuilder::Atoms(atoms),
                    conflict.reason,
                    ints,
                    bools,
                );
                assert forall|k: int|
                    0 <= k < self.vars().len() && bl <= ctx.view_min(self.vars()[k])
                        && ctx.view_max(self.vars()[k]) < bu implies bl <= (
                #[trigger] self.vars()[k]).eval(ints, bools) < bu by {
                    assert(ctx.has_view(self.vars()[k]));
                    lemma_view_bounds(ctx, self.vars()[k], ints, bools);
                }
                assert(crowd_kept(
                    ctx,
                    self.vars(),
                    bl as int,
                    bu as int,
                    self.vars().len() as int,
                    ints,
                    bools,
                ));
                assert(all_hold(atoms@, ints, bools));
            }
        }
        conflict
    }
}

/// A conflict of more views than the interval has values is explained.
pub proof fn lemma_crowd_explained(
    prop: &IntUniqueBoundsCumulativeSlack,
    ctx: &SolvingContext,
    i: int,
    l: int,
    u: int,
    conflict: Conflict,
)
    requires
        prop.tabled(),
        prop.cached_lb.len() == prop.vars().len(),
        prop.current(ctx),
        0 <= l < u < prop.s_bounds.len(),
        cell(prop.slack@, prop.s_bounds.len() as int, l, u) <= 0,
        0 <= i < prop.vars().len(),
        !encloses(
            prop.cached_lb@,
            prop.cached_ub@,
            prop.s_bounds[l] as int,
            prop.s_bounds[u] as int,
            i,
        ),
        prop.s_bounds[l] <= ctx.view_min(prop.vars()[i]),
        ctx.view_max(prop.vars()[i]) < prop.s_bounds[u],
        is_crowd_conflict(
            ctx,
            prop.vars(),
            prop.s_bounds[l] as int,
            prop.s_bounds[u] as int,
            conflict,
        ),
    ensures
        conflict.explained(all_different(prop.vars())),
{
    let rule = all_different(prop.vars());
    let (a, b) = (prop.s_bounds[l] as int, prop.s_bounds[u] as int);
    let reason = choose|reason: Vec<BoolView>| #[trigger]
        conflict.is_of(None, ReasonBuilder::Atoms(reason)) && forall|
            ints: IntAssignment,
            bools: BoolAssignment,
        |
            #[trigger] all_hold(reason@, ints, bools) <==> crowd_kept(
                ctx,
                prop.vars(),
                a,
                b,
                prop.vars().len() as int,
                ints,
                bools,
            );
    assert forall|ints: IntAssignment, bools: BoolAssignment|
        !(#[trigger] rule(ints, bools) && antecedent(conflict.reason, ints, bools)) by {
        if rule(ints, bools) && antecedent(conflict.reason, ints, bools) {
            lemma_built_reason_equivalent(
                ReasonBuilder::Atoms(reason),
                conflict.reason,
                ints,
                bools,
            );
            assert(all_hold(reason@, ints, bools));
            let members = lemma_members(
                prop.cached_lb@,
                prop.cached_ub@,
                a,
                b,
                prop.cached_lb.len() as int,
            );
            assert(members.len() >= b - a);
            assert forall|p: int| 0 <= p < members.len() implies 0 <= #[trigger] members[p]
                < prop.vars().len() && members[p] != i && a <= prop.vars()[members[p]].eval(
                ints,
                bools,
            ) < b by {
                let k = members[p];
                assert(prop.cached_lb[k] <= ctx.view_min(prop.vars()[k]));
            }
            lemma_filled(prop.vars(), members, i, a, b, ints, bools);
            assert(a <= prop.vars()[i].eval(ints, bools) < b);
        }
    }
}

/// An interval without values is closed to a view that it did not hold.
proof fn lemma_used_up(
    prop: &IntUniqueBoundsCumulativeSlack,
    ctx: &SolvingContext,
    i: int,
    l: int,
    u: int,
    ints: IntAssignment,
    bools: BoolAssignment,
)
    requires
        prop.tabled(),
        prop.cached_lb.len() == prop.vars().len(),
        prop.current(ctx),
        ctx.wf(),
        has_views(ctx, prop.vars()),
        0 <= l < u < prop.s_bounds.len(),
        cell(prop.slack@, prop.s_bounds.len() as int, l, u) <= 0,
        0 <= i < prop.vars().len(),
        !encloses(
            prop.cached_lb@,
            prop.cached_ub@,
            prop.s_bounds[l] as int,
            prop.s_bounds[u] as int,
            i,
        ),
        ctx.admits(ints, bools),
        all_different(prop.vars())(ints, bools),
    ensures
        !(prop.s_bounds[l] <= prop.vars()[i].eval(ints, bools) < prop.s_bounds[u]),
{
    let (a, b) = (prop.s_bounds[l] as int, prop.s_bounds[u] as int);
    let members = lemma_members(
        prop.cached_lb@,
        prop.cached_ub@,
        a,
        b,
        prop.cached_lb.len() as int,
    );
    assert(members.len() >= b - a);
    assert forall|p: int| 0 <= p < members.len() implies 0 <= #[trigger] members[p]
        < prop.vars().len() && members[p] != i && a <= prop.vars()[members[p]].eval(ints, bools)
        < b by {
        let k = members[p];
        assert(prop.cached_lb[k] <= ctx.view_min(prop.vars()[k]));
        assert(ctx.has_view(prop.vars()[k]));
        lemma_view_bounds(ctx, prop.vars()[k], ints, bools);
    }
    lemma_filled(prop.vars(), members, i, a, b, ints, bools);
}

/// The intervals of a climb push the view.
proof fn lemma_climb_sound(
    prop: &IntUniqueBoundsCumulativeSlack,
    ctx: &SolvingContext,
    i: int,
    from: int,
    j: int,
    chain: Seq<(usize, usize)>,
    ints: IntAssignment,
    bools: BoolAssignment,
)
    requires
        prop.tabled(),
        prop.working_sound(),
        prop.cached_lb.len() == prop.vars().len(),
        prop.current(ctx),
        ctx.wf(),
        has_views(ctx, prop.vars()),
        0 <= i < prop.vars().len(),
        climbs(prop.s_bounds@, prop.working@, from, j, chain),
        prop.cached_lb[i] < from,
        from <= prop.vars()[i].eval(ints, bools),
        ctx.admits(ints, bools),
        all_different(prop.vars())(ints, bools),
    ensures
        climb_end(prop.s_bounds@, from, chain) <= prop.vars()[i].eval(ints, bools),
        from <= climb_end(prop.s_bounds@, from, chain),
    decreases chain.len(),
{
    if chain.len() > 0 {
        let (l, u) = chain.last();
        lemma_climb_sound(prop, ctx, i, from, j, chain.drop_last(), ints, bools);
        assert(cell(prop.working@, prop.s_bounds.len() as int, l as int, u as int) <= 0);
        assert(prop.s_bounds@[l as int] < prop.s_bounds@[u as int]);
        lemma_used_up(prop, ctx, i, l as int, u as int, ints, bools);
    }
}

/// The intervals of a chain push the view down.
proof fn lemma_sink_sound(
    prop: &IntUniqueBoundsCumulativeSlack,
    ctx: &SolvingContext,
    i: int,
    from: int,
    r: int,
    chain: Seq<(usize, usize)>,
    ints: IntAssignment,
    bools: BoolAssignment,
)
    requires
        prop.tabled(),
        prop.working_sound(),
        prop.cached_lb.len() == prop.vars().len(),
        prop.current(ctx),
        ctx.wf(),
        has_views(ctx, prop.vars()),
        0 <= i < prop.vars().len(),
        sinks(prop.s_bounds@, prop.working@, from, r, chain),
        from < prop.cached_ub[i],
        prop.vars()[i].eval(ints, bools) <= from,
        ctx.admits(ints, bools),
        all_different(prop.vars())(ints, bools),
    ensures
        prop.vars()[i].eval(ints, bools) <= sink_end(prop.s_bounds@, from, chain),
        sink_end(prop.s_bounds@, from, chain) <= from,
    decreases chain.len(),
{
    if chain.len() > 0 {
        let (l, u) = chain.last();
        lemma_sink_sound(prop, ctx, i, from, r, chain.drop_last(), ints, bools);
        assert(cell(prop.working@, prop.s_bounds.len() as int, l as int, u as int) <= 0);
        assert(prop.s_bounds@[l as int] < prop.s_bounds@[u as int]);
        lemma_used_up(prop, ctx, i, l as int, u as int, ints, bools);
    }
}

proof fn lemma_climb_within(
    s: Seq<IntVal>,
    table: Seq<IntVal>,
    from: int,
    j: int,
    chain: Seq<(usize, usize)>,
)
    requires
        climbs(s, table, from, j, chain),
    ensures
        forall|t: int|
            0 <= t < chain.len() ==> (#[trigger] chain[t]).0 < s.len() && chain[t].1 < s.len(),
    decreases chain.len(),
{
    if chain.len() > 0 {
        let rest = chain.drop_last();
        lemma_climb_within(s, table, from, j, rest);
        assert forall|t: int| 0 <= t < chain.len() implies (#[trigger] chain[t]).0 < s.len()
            && chain[t].1 < s.len() by {
            if t < rest.len() {
                assert(rest[t] == chain[t]);
            }
        }
    }
}

proof fn lemma_sink_within(
    s: Seq<IntVal>,
    table: Seq<IntVal>,
    from: int,
    r: int,
    chain: Seq<(usize, usize)>,
)
    requires
        sinks(s, table, from, r, chain),
    ensures
        forall|t: int|
            0 <= t < chain.len() ==> (#[trigger] chain[t]).0 < s.len() && chain[t].1 < s.len(),
    decreases chain.len(),
{
    if chain.len() > 0 {
        let rest = chain.drop_last();
        lemma_sink_within(s, table, from, r, rest);
        assert forall|t: int| 0 <= t < chain.len() implies (#[trigger] chain[t]).0 < s.len()
            && chain[t].1 < s.len() by {
            if t < rest.len() {
                assert(rest[t] == chain[t]);
            }
        }
    }
}

/// A conflict that is declared where no assignment keeps the rule.
proof fn lemma_conflict_inferred(ctx: &SolvingContext, rule: Rule, conflict: Conflict)
    requires
        ctx.wf(),
        conflict.grounded(ctx),
        conflict.explained(rule),
        forall|ints: IntAssignment, bools: BoolAssignment|
            !(#[trigger] ctx.admits(ints, bools) && rule(ints, bools)),
    ensures
        ctx.infers(ctx, rule, Err(conflict)),
{
    lemma_infers_nothing(ctx, rule);
}

/// What a push rests on does not depend on how many values are left.
proof fn lemma_chain_kept_same(
    g: &IntUniqueBoundsCumulativeSlack,
    h: &IntUniqueBoundsCumulativeSlack,
    i: int,
    chain: Seq<(usize, usize)>,
    ints: IntAssignment,
    bools: BoolAssignment,
)
    requires
        h.same_but_working(g),
        chain_kept(h, i, chain, chain.len() as int, ints, bools),
    ensures
        chain_kept(g, i, chain, chain.len() as int, ints, bools),
{
    assert forall|t: int| 0 <= t < chain.len() implies interval_kept(
        g,
        i,
        (#[trigger] chain[t]).0 as int,
        chain[t].1 as int,
        g.vars().len() as int,
        ints,
        bools,
    ) by {
        assert(interval_kept(
            h,
            i,
            chain[t].0 as int,
            chain[t].1 as int,
            h.vars().len() as int,
            ints,
            bools,
        ));
    }
}

/// Whether the changed lower bound leaves every interval that it reaches with a value to
/// spare. The view had the lower bound with rank `r_old`, is pushed to the one with rank
/// `r_eff`, and ends before the one with rank `j`.
pub open spec fn lb_clear(
    prop: &IntUniqueBoundsCumulativeSlack,
    new_lb: int,
    new_ub: int,
    old_lb: int,
    chain: Seq<(usize, usize)>,
    r_old: int,
    r_eff: int,
    j: int,
    least: int,
) -> bool {
    let s = prop.s_bounds@;
    let m = s.len() as int;
    &&& 0 <= r_old < m
    &&& s[r_old] == old_lb
    &&& 0 <= j < m
    &&& s[j] == new_ub + 1
    &&& climbs(s, prop.working@, new_lb, j, chain)
    &&& 0 <= r_eff < m
    &&& s[r_eff] == climb_end(s, new_lb, chain)
    &&& s[r_eff] <= new_ub
    &&& row_free(s, prop.working@, r_eff, j)
    &&& forall|l: int, u: int|
        #![trigger cell(prop.working@, m, l, u)]
        in_rect(l, u, r_old + 1, r_eff + 1, j, m) ==> cell(prop.working@, m, l, u) >= least
    &&& least >= 2 ==> !starts_inside(s, prop.working@, r_eff, j)
}

/// Whether the changed upper bound leaves every interval that it reaches with a value to
/// spare. The view had the upper bound before rank `r_old`, is pushed to the one before rank
/// `u_eff`, and starts at rank `r_lb`.
pub open spec fn ub_clear(
    prop: &IntUniqueBoundsCumulativeSlack,
    new_lb: int,
    new_ub: int,
    old_ub: int,
    chain: Seq<(usize, usize)>,
    r_old: int,
    u_eff: int,
    r_lb: int,
    least: int,
) -> bool {
    let s = prop.s_bounds@;
    let m = s.len() as int;
    &&& 0 <= r_old < m
    &&& s[r_old] == old_ub + 1
    &&& 0 <= r_lb < m
    &&& s[r_lb] == new_lb
    &&& sinks(s, prop.working@, new_ub, r_lb, chain)
    &&& 0 <= u_eff < m
    &&& s[u_eff] == sink_end(s, new_ub, chain) + 1
    &&& s[u_eff] > new_lb
    &&& col_free(s, prop.working@, u_eff, r_lb)
    &&& forall|l: int, u: int|
        #![trigger cell(prop.working@, m, l, u)]
        in_rect(l, u, 0, r_lb + 1, u_eff, r_old) ==> cell(prop.working@, m, l, u) >= least
    &&& least >= 2 ==> !ends_inside(s, prop.working@, u_eff, r_lb)
}

/// Whether the working table is the other one, with a value taken from a rectangle.
pub open spec fn rect_taken(
    before: &IntUniqueBoundsCumulativeSlack,
    after: &IntUniqueBoundsCumulativeSlack,
    l_lo: int,
    l_hi: int,
    u_lo: int,
    u_hi: int,
) -> bool {
    let m = before.s_bounds.len() as int;
    forall|l: int, u: int|
        #![trigger cell(after.working@, m, l, u)]
        0 <= l < m && 0 <= u < m ==> cell(after.working@, m, l, u) == cell(before.working@, m, l, u)
            - if in_rect(l, u, l_lo, l_hi, u_lo, u_hi) {
            1int
        } else {
            0int
        }
}

/// Whether the conflict is that of an interval which was used up at the last fixed point, which
/// did not hold the view then, and which holds it now.
pub open spec fn crowded_out(
    prop: &IntUniqueBoundsCumulativeSlack,
    ctx: &SolvingContext,
    i: int,
    l: int,
    u: int,
    conflict: Conflict,
) -> bool {
    let (a, b) = (prop.s_bounds[l] as int, prop.s_bounds[u] as int);
    &&& 0 <= l < u < prop.s_bounds.len()
    &&& cell(prop.slack@, prop.s_bounds.len() as int, l, u) <= 0
    &&& !encloses(prop.cached_lb@, prop.cached_ub@, a, b, i)
    &&& is_crowd_conflict(ctx, prop.vars(), a, b, conflict)
    &&& a <= ctx.view_min(prop.vars()[i]) && ctx.view_max(prop.vars()[i]) < b
}

/// Whether a bound of the view is the given one, and all other bounds are as they were.
pub open spec fn only_moved(
    before: &SolvingContext,
    after: &SolvingContext,
    vars: Seq<IntView>,
    i: int,
    c: int,
    upper: bool,
) -> bool {
    &&& all_separate(after, vars)
    &&& forall|k: int|
        0 <= k < vars.len() && k != i ==> after.view_min(#[trigger] vars[k]) == before.view_min(
            vars[k],
        ) && after.view_max(vars[k]) == before.view_max(vars[k])
    &&& if upper {
        after.view_max(vars[i]) == c && after.view_min(vars[i]) == before.view_min(vars[i])
    } else {
        after.view_min(vars[i]) == c && after.view_max(vars[i]) == before.view_max(vars[i])
    }
}

/// Whether every interval between critical values leaves at least the values of the table to the
/// views with the given bounds.
spec fn budget_kept(
    table: Seq<IntVal>,
    s: Seq<IntVal>,
    lbs: Seq<IntVal>,
    ubs: Seq<IntVal>,
) -> bool {
    forall|l: int, u: int|
        #![trigger cell(table, s.len() as int, l, u)]
        0 <= l < u < s.len() ==> cell(table, s.len() as int, l, u) <= spare(s, lbs, ubs, l, u)
}

proof fn lemma_enclosed_update(
    lbs: Seq<IntVal>,
    ubs: Seq<IntVal>,
    a: int,
    b: int,
    n: int,
    i: int,
    x: IntVal,
    y: IntVal,
)
    requires
        0 <= n <= lbs.len(),
        lbs.len() == ubs.len(),
        0 <= i < lbs.len(),
    ensures
        enclosed(lbs.update(i, x), ubs.update(i, y), a, b, n) == enclosed(lbs, ubs, a, b, n) + if i
            < n {
            (if x >= a && y < b {
                1int
            } else {
                0int
            }) - if encloses(lbs, ubs, a, b, i) {
                1int
            } else {
                0int
            }
        } else {
            0int
        },
    decreases n,
{
    if n > 0 {
        lemma_enclosed_update(lbs, ubs, a, b, n - 1, i, x, y);
    }
}

/// Whether a value is taken from every interval that comes to hold a view.
spec fn taken_enough(
    s: Seq<IntVal>,
    before: Seq<IntVal>,
    after: Seq<IntVal>,
    lb0: int,
    ub0: int,
    lb1: int,
    ub1: int,
) -> bool {
    forall|l: int, u: int|
        #![trigger cell(after, s.len() as int, l, u)]
        0 <= l < u < s.len() ==> cell(after, s.len() as int, l, u) <= cell(
            before,
            s.len() as int,
            l,
            u,
        ) - if lb1 >= s[l] && ub1 < s[u] && !(lb0 >= s[l] && ub0 < s[u]) {
            1int
        } else {
            0int
        }
}

proof fn lemma_budget_step(
    s: Seq<IntVal>,
    before: Seq<IntVal>,
    after: Seq<IntVal>,
    lbs: Seq<IntVal>,
    ubs: Seq<IntVal>,
    i: int,
    x: IntVal,
    y: IntVal,
)
    requires
        budget_kept(before, s, lbs, ubs),
        lbs.len() == ubs.len(),
        0 <= i < lbs.len(),
        lbs[i] <= x,
        y <= ubs[i],
        taken_enough(s, before, after, lbs[i] as int, ubs[i] as int, x as int, y as int),
    ensures
        budget_kept(after, s, lbs.update(i, x), ubs.update(i, y)),
{
    let m = s.len() as int;
    assert forall|l: int, u: int|
        #![trigger cell(after, m, l, u)]
        0 <= l < u < m implies cell(after, m, l, u) <= spare(
        s,
        lbs.update(i, x),
        ubs.update(i, y),
        l,
        u,
    ) by {
        lemma_enclosed_update(
            lbs,
            ubs,
            s[l] as int,
            s[u] as int,
            lbs.len() as int,
            i,
            x,
            y,
        );
        assert(cell(before, m, l, u) <= spare(s, lbs, ubs, l, u));
    }
}

/// The two looks at a view together take enough.
proof fn lemma_taken_enough(
    s: Seq<IntVal>,
    w0: IntUniqueBoundsCumulativeSlack,
    w1: IntUniqueBoundsCumulativeSlack,
    w2: IntUniqueBoundsCumulativeSlack,
    lb0: int,
    ub0: int,
    ub_mid: int,
    lb1: int,
    ub1: int,
    low: Option<(int, int, int)>,
    high: Option<(int, int, int)>,
)
    requires
        ascending(s),
        s == w0.s_bounds@,
        s == w1.s_bounds@,
        lb0 <= lb1,
        ub1 <= ub_mid <= ub0,
        match low {
            Some((r_old, r_eff, j)) => {
                &&& 0 <= r_old < s.len() && s[r_old] == lb0
                &&& 0 <= r_eff < s.len() && s[r_eff] == lb1
                &&& 0 <= j < s.len() && s[j] == ub_mid + 1
                &&& rect_taken(&w0, &w1, r_old + 1, r_eff + 1, j, s.len() as int)
            },
            None => lb1 == lb0 && w1.working@ == w0.working@,
        },
        match high {
            Some((r_old, u_eff, r_lb)) => {
                &&& 0 <= r_old < s.len() && s[r_old] == ub0 + 1
                &&& 0 <= u_eff < s.len() && s[u_eff] == ub1 + 1
                &&& 0 <= r_lb < s.len() && s[r_lb] == lb1
                &&& rect_taken(&w1, &w2, 0, r_lb + 1, u_eff, r_old)
            },
            None => ub1 == ub0 && w2.working@ == w1.working@,
        },
    ensures
        taken_enough(s, w0.working@, w2.working@, lb0, ub0, lb1, ub1),
{
    let m = s.len() as int;
    assert(w0.s_bounds.len() == m && w1.s_bounds.len() == m);
    assert forall|l: int, u: int|
        #![trigger cell(w2.working@, m, l, u)]
        0 <= l < u < m implies cell(w2.working@, m, l, u) <= cell(w0.working@, m, l, u) - (if lb1
        >= s[l] && ub1 < s[u] && !(lb0 >= s[l] && ub0 < s[u]) {
        1int
    } else {
        0int
    }) by {
        let holds = lb1 >= s[l] && ub1 < s[u] && !(lb0 >= s[l] && ub0 < s[u]);
        let first = match low {
            Some((r_old, r_eff, j)) => in_rect(l, u, r_old + 1, r_eff + 1, j, m),
            None => false,
        };
        let second = match high {
            Some((r_old, u_eff, r_lb)) => in_rect(l, u, 0, r_lb + 1, u_eff, r_old),
            None => false,
        };
        assert(cell(w1.working@, m, l, u) == cell(w0.working@, m, l, u) - if first {
            1int
        } else {
            0int
        });
        assert(cell(w2.working@, m, l, u) == cell(w1.working@, m, l, u) - if second {
            1int
        } else {
            0int
        });
        if holds {
            if lb0 < s[l] {
                assert(low is Some);
                let (r_old, r_eff, j) = low->0;
                assert(r_old < l) by {
                    if l < r_old {
                        assert(s[l] < s[r_old]);
                    }
                }
                assert(l <= r_eff) by {
                    if r_eff < l {
                        assert(s[r_eff] < s[l]);
                    }
                }
                if u < j {
                    assert(s[u] < s[j]);
                    lemma_upper_reached(s, lb1, ub0, ub1, high, l, u);
                }
            } else {
                lemma_upper_reached(s, lb1, ub0, ub1, high, l, u);
            }
            assert(first || second);
        }
    }
}

proof fn lemma_upper_reached(
    s: Seq<IntVal>,
    lb1: int,
    ub0: int,
    ub1: int,
    high: Option<(int, int, int)>,
    l: int,
    u: int,
)
    requires
        ascending(s),
        0 <= l < u < s.len(),
        lb1 >= s[l],
        ub1 < s[u] <= ub0,
        match high {
            Some((r_old, u_eff, r_lb)) => {
                &&& 0 <= r_old < s.len() && s[r_old] == ub0 + 1
                &&& 0 <= u_eff < s.len() && s[u_eff] == ub1 + 1
                &&& 0 <= r_lb < s.len() && s[r_lb] == lb1
            },
            None => ub1 == ub0,
        },
    ensures
        high matches Some((r_old, u_eff, r_lb)) && in_rect(l, u, 0, r_lb + 1, u_eff, r_old),
{
    let (r_old, u_eff, r_lb) = high->0;
    if u > r_old {
        assert(s[r_old] < s[u]);
    }
    if u < u_eff {
        assert(s[u] < s[u_eff]);
    }
    if l > r_lb {
        assert(s[r_lb] < s[l]);
    }
}

/// Whether no interval between critical values that had a value to spare at the last fixed point
/// is filled by the views.
pub open spec fn none_filled(prop: &IntUniqueBoundsCumulativeSlack, ctx: &SolvingContext) -> bool {
    let s = prop.s_bounds@;
    forall|l: int, u: int|
        #![trigger cell(prop.slack@, s.len() as int, l, u)]
        0 <= l < u < s.len() && cell(prop.slack@, s.len() as int, l, u) > 0 ==> spare(
            s,
            view_mins(ctx, prop.vars()),
            view_maxs(ctx, prop.vars()),
            l,
            u,
        ) > 0
}

/// Whether the bounds start or end in the interval from `a` up to, but not including, `b`, and do
/// not lie in it.
pub open spec fn straddles(lb: int, ub: int, a: int, b: int) -> bool {
    (a <= lb < b <= ub) || (lb < a <= ub < b)
}

/// Whether no bounds start or end in an interval between critical values that they use up, unless
/// they lie in it.
pub open spec fn none_straddled(s: Seq<IntVal>, lbs: Seq<IntVal>, ubs: Seq<IntVal>) -> bool {
    forall|l: int, u: int, k: int|
        0 <= l < u < s.len() && 0 <= k < lbs.len() && #[trigger] spare(s, lbs, ubs, l, u) <= 0
            ==> !straddles((#[trigger] lbs[k]) as int, ubs[k] as int, s[l] as int, s[u] as int)
}

/// Whether no bounds start or end in an interval that was used up at the last fixed point, unless
/// they lie in it.
spec fn clear_of_used(
    prop: &IntUniqueBoundsCumulativeSlack,
    lbs: Seq<IntVal>,
    ubs: Seq<IntVal>,
) -> bool {
    let s = prop.s_bounds@;
    forall|l: int, u: int, k: int|
        0 <= l < u < s.len() && 0 <= k < lbs.len() && #[trigger] cell(
            prop.slack@,
            s.len() as int,
            l,
            u,
        ) <= 0 ==> !straddles((#[trigger] lbs[k]) as int, ubs[k] as int, s[l] as int, s[u] as int)
}

/// At the last fixed point that is the same.
proof fn lemma_rested_clear(prop: &IntUniqueBoundsCumulativeSlack)
    requires
        prop.tabled(),
        none_straddled(prop.s_bounds@, prop.cached_lb@, prop.cached_ub@),
    ensures
        clear_of_used(prop, prop.cached_lb@, prop.cached_ub@),
{
    let s = prop.s_bounds@;
    assert forall|l: int, u: int, k: int|
        0 <= l < u < s.len() && 0 <= k < prop.cached_lb@.len() && #[trigger] cell(
            prop.slack@,
            s.len() as int,
            l,
            u,
        ) <= 0 implies !straddles(
        (#[trigger] prop.cached_lb@[k]) as int,
        prop.cached_ub@[k] as int,
        s[l] as int,
        s[u] as int,
    ) by {
        assert(spare(s, prop.cached_lb@, prop.cached_ub@, l, u) <= 0);
    }
}

/// The two looks at a view keep it clear of the intervals that were used up.
proof fn lemma_clear_step(
    prop: &IntUniqueBoundsCumulativeSlack,
    w0: IntUniqueBoundsCumulativeSlack,
    w1: IntUniqueBoundsCumulativeSlack,
    lbs: Seq<IntVal>,
    ubs: Seq<IntVal>,
    i: int,
    ub_mid: int,
    x: IntVal,
    y: IntVal,
    low: Option<(int, int, int)>,
    high: Option<(int, int, int)>,
)
    requires
        ascending(prop.s_bounds@),
        prop.drawn_on(&w0),
        prop.drawn_on(&w1),
        clear_of_used(prop, lbs, ubs),
        lbs.len() == ubs.len(),
        0 <= i < lbs.len(),
        lbs[i] <= x,
        y <= ub_mid <= ubs[i],
        ({
            let s = prop.s_bounds@;
            &&& match low {
                Some((_, r_eff, j)) => {
                    &&& 0 <= r_eff < s.len() && s[r_eff] == x
                    &&& 0 <= j < s.len() && s[j] == ub_mid + 1
                    &&& row_free(s, w0.working@, r_eff, j)
                    &&& !starts_inside(s, w0.working@, r_eff, j)
                },
                None => x == lbs[i],
            }
            &&& match high {
                Some((_, u_eff, r_lb)) => {
                    &&& 0 <= u_eff < s.len() && s[u_eff] == y + 1
                    &&& 0 <= r_lb < s.len() && s[r_lb] == x
                    &&& col_free(s, w1.working@, u_eff, r_lb)
                    &&& !ends_inside(s, w1.working@, u_eff, r_lb)
                },
                None => y == ubs[i],
            }
        }),
    ensures
        clear_of_used(prop, lbs.update(i, x), ubs.update(i, y)),
{
    let s = prop.s_bounds@;
    let m = s.len() as int;
    let (lbs1, ubs1) = (lbs.update(i, x), ubs.update(i, y));
    assert forall|l: int, u: int, k: int|
        0 <= l < u < m && 0 <= k < lbs1.len() && #[trigger] cell(prop.slack@, m, l, u)
            <= 0 implies !straddles((#[trigger] lbs1[k]) as int, ubs1[k] as int, s[l] as int, s[u] as int) by {
        assert(!straddles(lbs[k] as int, ubs[k] as int, s[l] as int, s[u] as int));
        if k == i {
            assert(cell(w0.slack@, m, l, u) <= 0 && cell(w1.slack@, m, l, u) <= 0);
            assert(cell(w0.working@, m, l, u) <= 0);
            assert(cell(w1.working@, m, l, u) <= 0);
            if s[l] <= x < s[u] <= y && low is Some {
                let (_, r, j) = low->0;
                assert(u < j) by {
                    if j < u {
                        assert(s[j] < s[u]);
                    }
                }
                assert(l <= r) by {
                    if r < l {
                        assert(s[r] < s[l]);
                    }
                }
                assert(r < u) by {
                    if u < r {
                        assert(s[u] < s[r]);
                    }
                }
            }
            if x < s[l] <= y < s[u] && high is Some {
                let (_, e, r) = high->0;
                assert(r < l) by {
                    if l < r {
                        assert(s[l] < s[r]);
                    }
                }
                assert(l < e) by {
                    if e < l {
                        assert(s[e] < s[l]);
                    }
                }
                assert(e <= u) by {
                    if u < e {
                        assert(s[u] < s[e]);
                    }
                }
            }
        }
    }
}

/// The smallest values of the views.
pub open spec fn view_mins(ctx: &SolvingContext, vars: Seq<IntView>) -> Seq<IntVal> {
    Seq::new(vars.len(), |k: int| ctx.view_min(vars[k]) as IntVal)
}

/// The largest values of the views.
pub open spec fn view_maxs(ctx: &SolvingContext, vars: Seq<IntView>) -> Seq<IntVal> {
    Seq::new(vars.len(), |k: int| ctx.view_max(vars[k]) as IntVal)
}

/// Whether every view whose bounds have changed was reported.
pub open spec fn all_reported(prop: &IntUniqueBoundsCumulativeSlack, ctx: &SolvingContext) -> bool {
    forall|k: int|
        0 <= k < prop.vars().len() && !prop.var_updated@.contains(k as usize) ==> ctx.view_min(
            #[trigger] prop.vars()[k],
        ) == prop.cached_lb[k] && ctx.view_max(prop.vars()[k]) == prop.cached_ub[k]
}

/// Whether a view with a changed lower bound is pushed into an interval without values. The
/// conflict is left to a look at all bounds.
pub open spec fn lower_blocked(
    prop: &IntUniqueBoundsCumulativeSlack,
    new_lb: int,
    new_ub: int,
    old_lb: int,
) -> bool {
    exists|chain: Seq<(usize, usize)>, r_old: int, r_eff: int, j: int, l: int, u: int| #[trigger]
        lower_blocked_at(prop, new_lb, new_ub, old_lb, chain, r_old, r_eff, j, l, u)
}

/// Whether the intervals of the chain push the view into the interval, which has no values left
/// and starts behind the view.
pub open spec fn lower_blocked_at(
    prop: &IntUniqueBoundsCumulativeSlack,
    new_lb: int,
    new_ub: int,
    old_lb: int,
    chain: Seq<(usize, usize)>,
    r_old: int,
    r_eff: int,
    j: int,
    l: int,
    u: int,
) -> bool {
    let s = prop.s_bounds@;
    let m = s.len() as int;
    &&& 0 <= j < m && s[j] == new_ub + 1
    &&& 0 <= l < u < m
    &&& cell(prop.working@, m, l, u) <= 0
    &&& s[l] > new_lb
    &&& chain.len() > 0
    &&& climbs(s, prop.working@, new_lb, j, chain)
    &&& {
        ||| chain.last() == (l as usize, u as usize) && s[u] > new_ub
        ||| {
            &&& 0 <= r_old < m && s[r_old] == old_lb
            &&& 0 <= r_eff < m && s[r_eff] == climb_end(s, new_lb, chain)
            &&& in_rect(l, u, r_old + 1, r_eff + 1, j, m)
        }
    }
}

/// Whether a view with a changed upper bound is pushed into an interval without values. The
/// conflict is left to a look at all bounds.
pub open spec fn upper_blocked(
    prop: &IntUniqueBoundsCumulativeSlack,
    new_lb: int,
    new_ub: int,
    old_ub: int,
) -> bool {
    exists|chain: Seq<(usize, usize)>, r_old: int, u_eff: int, r_lb: int, l: int, u: int|
        #[trigger]
        upper_blocked_at(prop, new_lb, new_ub, old_ub, chain, r_old, u_eff, r_lb, l, u)
}

/// Whether the intervals of the chain push the view into the interval, which has no values left
/// and ends before the view.
pub open spec fn upper_blocked_at(
    prop: &IntUniqueBoundsCumulativeSlack,
    new_lb: int,
    new_ub: int,
    old_ub: int,
    chain: Seq<(usize, usize)>,
    r_old: int,
    u_eff: int,
    r_lb: int,
    l: int,
    u: int,
) -> bool {
    let s = prop.s_bounds@;
    let m = s.len() as int;
    &&& 0 <= r_lb < m && s[r_lb] == new_lb
    &&& 0 <= l < u < m
    &&& cell(prop.working@, m, l, u) <= 0
    &&& s[u] <= new_ub
    &&& chain.len() > 0
    &&& sinks(s, prop.working@, new_ub, r_lb, chain)
    &&& 0 <= r_old < m && s[r_old] == old_ub + 1
    &&& 0 <= u_eff < m && s[u_eff] == sink_end(s, new_ub, chain) + 1
    &&& in_rect(l, u, 0, r_lb + 1, u_eff, r_old)
}

/// Whether a changed lower bound leaves the intervals that it reaches with `least` values.
pub open spec fn lower_clear(
    prop: &IntUniqueBoundsCumulativeSlack,
    new_lb: int,
    new_ub: int,
    old_lb: int,
    least: int,
) -> bool {
    exists|chain: Seq<(usize, usize)>, r_old: int, r_eff: int, j: int| #[trigger]
        lb_clear(prop, new_lb, new_ub, old_lb, chain, r_old, r_eff, j, least)
}

/// Whether a changed upper bound leaves the intervals that it reaches with `least` values.
pub open spec fn upper_clear(
    prop: &IntUniqueBoundsCumulativeSlack,
    new_lb: int,
    new_ub: int,
    old_ub: int,
    least: int,
) -> bool {
    exists|chain: Seq<(usize, usize)>, r_old: int, u_eff: int, r_lb: int| #[trigger]
        ub_clear(prop, new_lb, new_ub, old_ub, chain, r_old, u_eff, r_lb, least)
}

/// Whether a changed lower bound uses up the last value of an interval that it reaches, or lies
/// inside an interval without values.
pub open spec fn lower_uses_up(
    prop: &IntUniqueBoundsCumulativeSlack,
    new_lb: int,
    new_ub: int,
    old_lb: int,
) -> bool {
    exists|chain: Seq<(usize, usize)>, r_old: int, r_eff: int, j: int| #[trigger]
        lb_clear(prop, new_lb, new_ub, old_lb, chain, r_old, r_eff, j, 1) && !lb_clear(
            prop,
            new_lb,
            new_ub,
            old_lb,
            chain,
            r_old,
            r_eff,
            j,
            2,
        )
}

/// Whether a changed upper bound uses up the last value of an interval that it reaches, or lies
/// inside an interval without values.
pub open spec fn upper_uses_up(
    prop: &IntUniqueBoundsCumulativeSlack,
    new_lb: int,
    new_ub: int,
    old_ub: int,
) -> bool {
    exists|chain: Seq<(usize, usize)>, r_old: int, u_eff: int, r_lb: int| #[trigger]
        ub_clear(prop, new_lb, new_ub, old_ub, chain, r_old, u_eff, r_lb, 1) && !ub_clear(
            prop,
            new_lb,
            new_ub,
            old_ub,
            chain,
            r_old,
            u_eff,
            r_lb,
            2,
        )
}

impl IntUniqueBoundsCumulativeSlack {
    /// Whether the state is this one, with values taken from the table.
    pub open spec fn drawn_on(&self, table: &IntUniqueBoundsCumulativeSlack) -> bool {
        table.same_but_working(self) && table.working_sound()
    }

    /// Whether the changed bounds of the view are known ones and leave every interval that they
    /// reach with a value to spare.
    pub open spec fn passed_at(
        &self,
        ctx0: &SolvingContext,
        ctx: &SolvingContext,
        i: int,
        mid: SolvingContext,
        low: IntUniqueBoundsCumulativeSlack,
        pushed: SolvingContext,
        high: IntUniqueBoundsCumulativeSlack,
    ) -> bool {
        let view = self.vars()[i];
        &&& mid.between(ctx0, &pushed)
        &&& pushed.between(&mid, ctx)
        &&& self.drawn_on(&low)
        &&& self.drawn_on(&high)
        &&& mid.view_min(view) > self.cached_lb[i] ==> lower_clear(
            &low,
            mid.view_min(view),
            mid.view_max(view),
            self.cached_lb[i] as int,
            2,
        )
        &&& pushed.view_max(view) < self.cached_ub[i] ==> upper_clear(
            &high,
            pushed.view_min(view),
            pushed.view_max(view),
            self.cached_ub[i] as int,
            2,
        )
    }

    /// Whether the bounds that the view had on the way need no run over all bounds.
    pub open spec fn passed(&self, ctx0: &SolvingContext, ctx: &SolvingContext, i: int) -> bool {
        exists|
            mid: SolvingContext,
            low: IntUniqueBoundsCumulativeSlack,
            pushed: SolvingContext,
            high: IntUniqueBoundsCumulativeSlack,
        | #[trigger]
            self.passed_at(ctx0, ctx, i, mid, low, pushed, high)
    }

    /// Whether a changed bound of the view is not a known one, or uses up the last value of an
    /// interval.
    pub open spec fn stuck_at(
        &self,
        ctx0: &SolvingContext,
        ctx: &SolvingContext,
        i: int,
        mid: SolvingContext,
        table: IntUniqueBoundsCumulativeSlack,
    ) -> bool {
        let (lb, ub) = (mid.view_min(self.vars()[i]), mid.view_max(self.vars()[i]));
        let known = self.s_bounds@.contains(lb as IntVal) && self.s_bounds@.contains(
            (ub + 1) as IntVal,
        );
        &&& mid.between(ctx0, ctx)
        &&& self.drawn_on(&table)
        &&& {
            ||| lb > self.cached_lb[i] && (!known || lower_uses_up(
                &table,
                lb,
                ub,
                self.cached_lb[i] as int,
            ) || lower_blocked(&table, lb, ub, self.cached_lb[i] as int))
            ||| ub < self.cached_ub[i] && (!known || upper_uses_up(
                &table,
                lb,
                ub,
                self.cached_ub[i] as int,
            ) || upper_blocked(&table, lb, ub, self.cached_ub[i] as int))
        }
    }

    /// Whether the bounds that the view had on the way need a run over all bounds.
    pub open spec fn stuck(&self, ctx0: &SolvingContext, ctx: &SolvingContext, i: int) -> bool {
        exists|mid: SolvingContext, table: IntUniqueBoundsCumulativeSlack| #[trigger]
            self.stuck_at(ctx0, ctx, i, mid, table)
    }

    /// Counters do not matter to what is passed on the way.
    proof fn lemma_passed_same(
        &self,
        other: &IntUniqueBoundsCumulativeSlack,
        ctx0: &SolvingContext,
        ctx: &SolvingContext,
        i: int,
    )
        requires
            self.passed(ctx0, ctx, i),
            self.same_but_working(other),
        ensures
            other.passed(ctx0, ctx, i),
    {
        let (mid, low, pushed, high) = choose|
            mid: SolvingContext,
            low: IntUniqueBoundsCumulativeSlack,
            pushed: SolvingContext,
            high: IntUniqueBoundsCumulativeSlack,
        | #[trigger]
            self.passed_at(ctx0, ctx, i, mid, low, pushed, high);
        assert(other.passed_at(ctx0, ctx, i, mid, low, pushed, high));
    }

    /// What is passed on the way stays so.
    proof fn lemma_passed_later(
        &self,
        ctx0: &SolvingContext,
        ctx1: &SolvingContext,
        ctx2: &SolvingContext,
        i: int,
    )
        requires
            self.passed(ctx0, ctx1, i),
            ctx2.grows(ctx1),
            ctx2.narrows(ctx1),
        ensures
            self.passed(ctx0, ctx2, i),
    {
        let (mid, low, pushed, high) = choose|
            mid: SolvingContext,
            low: IntUniqueBoundsCumulativeSlack,
            pushed: SolvingContext,
            high: IntUniqueBoundsCumulativeSlack,
        | #[trigger]
            self.passed_at(ctx0, ctx1, i, mid, low, pushed, high);
        lemma_narrows_later(&pushed, ctx1, ctx2);
        assert(self.passed_at(ctx0, ctx2, i, mid, low, pushed, high));
    }
}

impl IntUniqueBoundsCumulativeSlack {
    /// What looking at a changed bound relies on.
    pub open spec fn checkable(&self, ctx: &SolvingContext) -> bool {
        &&& self.wf()
        &&& self.cache_valid
        &&& self.working_sound()
        &&& ctx.wf()
        &&& has_views(ctx, self.vars())
        &&& self.current(ctx)
    }

    /// Look at a lower bound that has changed.
    #[verifier::spinoff_prover]
    fn check_var_lb(
        &mut self,
        ctx: &mut SolvingContext,
        i: usize,
        new_lb: IntVal,
        new_ub: IntVal,
        old_lb: IntVal,
    ) -> (r: Result<CumulativeOutcome, Conflict>)
        requires
            old(self).checkable(old(ctx)),
            i < old(self).vars().len(),
            new_lb == old(ctx).view_min(old(self).vars()[i as int]),
            new_ub == old(ctx).view_max(old(self).vars()[i as int]),
            new_lb <= new_ub,
            old_lb == old(self).cached_lb[i as int],
            old_lb < new_lb,
        ensures
            final(self).same_but_working(old(self)),
            final(self).same_runs(old(self)),
            final(self).prop_pushes == counted(
                old(self).prop_pushes,
                final(ctx).propagation_queue.len() - old(ctx).propagation_queue.len(),
            ),
            all_by_chains(old(self), old(ctx), final(ctx)),
            final(self).working.len() == old(self).working.len(),
            final(ctx).infers(old(ctx), all_different(old(self).vars()), outcome(r)),
            final(ctx).trail == old(ctx).trail,
            has_views(final(ctx), old(self).vars()),
            final(self).current(final(ctx)),
            match r {
                Ok(CumulativeOutcome::Skip) => {
                    &&& final(self).checkable(final(ctx))
                    &&& exists|chain: Seq<(usize, usize)>, r_old: int, r_eff: int, j: int|
                        #[trigger] lb_clear(
                            old(self),
                            new_lb as int,
                            new_ub as int,
                            old_lb as int,
                            chain,
                            r_old,
                            r_eff,
                            j,
                            2,
                        ) && rect_taken(
                            old(self),
                            final(self),
                            r_old + 1,
                            r_eff + 1,
                            j,
                            old(self).s_bounds.len() as int,
                        ) && final(ctx).view_min(old(self).vars()[i as int])
                            >= old(self).s_bounds[r_eff] && (chain.len() == 0 ==> *final(ctx)
                            == *old(ctx)) && (all_separate(old(ctx), old(self).vars())
                            ==> only_moved(
                            old(ctx),
                            final(ctx),
                            old(self).vars(),
                            i as int,
                            old(self).s_bounds[r_eff] as int,
                            false,
                        ))
                },
                Ok(CumulativeOutcome::CannotSkip) => {
                    &&& *final(ctx) == *old(ctx)
                    &&& {
                        ||| !old(self).s_bounds@.contains((new_ub + 1) as IntVal)
                        ||| !old(self).s_bounds@.contains(new_lb)
                        ||| exists|chain: Seq<(usize, usize)>, r_old: int, r_eff: int, j: int|
                            #[trigger] lb_clear(
                                old(self),
                                new_lb as int,
                                new_ub as int,
                                old_lb as int,
                                chain,
                                r_old,
                                r_eff,
                                j,
                                1,
                            ) && !lb_clear(
                                old(self),
                                new_lb as int,
                                new_ub as int,
                                old_lb as int,
                                chain,
                                r_old,
                                r_eff,
                                j,
                                2,
                            )
                        ||| lower_blocked(
                            old(self),
                            new_lb as int,
                            new_ub as int,
                            old_lb as int,
                        )
                    }
                },
                Err(conflict) => *final(ctx) == *old(ctx) && exists|l: int, u: int|
                    #[trigger] crowded_out(old(self), old(ctx), i as int, l, u, conflict),
            },
    {
        let ghost st0 = *self;
        let ghost ctx0 = *ctx;
        let ghost rule = all_different(self.vars());
        let ghost s = self.s_bounds@;
        let ghost m = s.len() as int;
        let view: IntView = self.bounds.var[i];
        proof {
            assert(ctx.has_view(self.vars()[i as int]));
            lemma_infers_nothing(&ctx0, rule);
            assert(is_end(self.cached_lb@, self.cached_ub@, i as int, old_lb));
        }
        let j: usize = match self.known_rank(new_ub + 1) {
            Some(j) => j,
            None => {
                return Ok(CumulativeOutcome::CannotSkip);
            },
        };
        let r_old: usize = match self.known_rank(old_lb) {
            Some(k) => k,
            None => {
                return Ok(CumulativeOutcome::CannotSkip);
            },
        };
        let (effective, chain): (IntVal, Vec<(usize, usize)>) = match self.phase1_push_lb(
            new_lb,
            new_ub,
            j,
        ) {
            Phase1Outcome::Done(end, chain) => (end, chain),
            Phase1Outcome::WipeOut(l, u) => {
                let ghost path = choose|chain: Seq<(usize, usize)>|
                    chain.len() > 0 && chain.last() == (l, u) && #[trigger] climbs(
                        s,
                        self.working@,
                        new_lb as int,
                        j as int,
                        chain,
                    ) && s[u as int] > new_ub && climb_end(s, new_lb as int, chain.drop_last())
                        <= new_ub;
                proof {
                    assert(row_hit(s, self.working@, l as int, u as int, j as int));
                }
                if self.s_bounds[l] > new_lb {
                    proof {
                        assert(lower_blocked_at(
                            &st0,
                            new_lb as int,
                            new_ub as int,
                            old_lb as int,
                            path,
                            0,
                            0,
                            j as int,
                            l as int,
                            u as int,
                        ));
                    }
                    return Ok(CumulativeOutcome::CannotSkip);
                }
                let conflict: Conflict = self.declare_overcrowded_conflict(ctx, l, u);
                proof {
                    self.lemma_wiped_out(&ctx0, i as int, new_lb as int, new_ub as int, j as int, path);
                    lemma_crowd_explained(&st0, &ctx0, i as int, l as int, u as int, conflict);
                    lemma_conflict_inferred(&ctx0, rule, conflict);
                    assert(crowded_out(&st0, &ctx0, i as int, l as int, u as int, conflict));
                }
                return Err(conflict);
            },
            Phase1Outcome::BoundsMiss => {
                return Ok(CumulativeOutcome::CannotSkip);
            },
        };
        let r_eff: usize = match self.known_rank(effective) {
            Some(k) => k,
            None => {
                return Ok(CumulativeOutcome::CannotSkip);
            },
        };
        let len: usize = self.s_bounds.len();
        proof {
            let k = choose|k: int|
                0 <= k < m && #[trigger] s[k] == effective && row_free(
                    s,
                    self.working@,
                    k,
                    j as int,
                );
            assert(k == r_eff) by {
                if k < r_eff {
                    assert(s[k] < s[r_eff as int]);
                } else if r_eff < k {
                    assert(s[r_eff as int] < s[k]);
                }
            }
        }
        let new_hall: bool = match self.phase2_scan(r_old + 1, r_eff + 1, j, len) {
            Phase2Outcome::Clean => false,
            Phase2Outcome::NewHallWouldForm => true,
            Phase2Outcome::Overcrowded(l, u) => {
                if self.s_bounds[l] > new_lb {
                    proof {
                        assert(lower_blocked_at(
                            &st0,
                            new_lb as int,
                            new_ub as int,
                            old_lb as int,
                            chain@,
                            r_old as int,
                            r_eff as int,
                            j as int,
                            l as int,
                            u as int,
                        )) by {
                            if chain.len() == 0 {
                                assert(s[r_eff as int] == new_lb);
                                if l < r_eff {
                                    assert(s[l as int] < s[r_eff as int]);
                                }
                            }
                        }
                    }
                    return Ok(CumulativeOutcome::CannotSkip);
                }
                let conflict: Conflict = self.declare_overcrowded_conflict(ctx, l, u);
                proof {
                    assert(cell(self.working@, m, l as int, u as int) <= 0);
                    assert(s[r_old as int] < s[l as int]);
                    assert(l <= r_eff ==> s[l as int] <= s[r_eff as int]) by {
                        if l < r_eff {
                            assert(s[l as int] < s[r_eff as int]);
                        }
                    }
                    assert(s[j as int] <= s[u as int]) by {
                        if j < u {
                            assert(s[j as int] < s[u as int]);
                        }
                    }
                    assert forall|ints: IntAssignment, bools: BoolAssignment|
                        !(#[trigger] ctx0.admits(ints, bools) && rule(ints, bools)) by {
                        if ctx0.admits(ints, bools) && rule(ints, bools) {
                            lemma_view_bounds(&ctx0, view, ints, bools);
                            lemma_climb_sound(
                                &st0,
                                &ctx0,
                                i as int,
                                new_lb as int,
                                j as int,
                                chain@,
                                ints,
                                bools,
                            );
                            lemma_used_up(
                                &st0,
                                &ctx0,
                                i as int,
                                l as int,
                                u as int,
                                ints,
                                bools,
                            );
                        }
                    }
                    lemma_crowd_explained(&st0, &ctx0, i as int, l as int, u as int, conflict);
                    lemma_conflict_inferred(&ctx0, rule, conflict);
                    assert(crowded_out(&st0, &ctx0, i as int, l as int, u as int, conflict));
                }
                return Err(conflict);
            },
        };
        let inside: bool = self.used_up_within(0, r_eff, r_eff + 1, j);
        proof {
            assert(inside == starts_inside(s, st0.working@, r_eff as int, j as int)) by {
                if inside {
                    let (l, u) = choose|l: int, u: int|
                        #![trigger cell(st0.working@, m, l, u)]
                        0 <= l < r_eff && r_eff + 1 <= u < j && cell(st0.working@, m, l, u) <= 0;
                    assert(cell(st0.working@, m, l, u) <= 0);
                }
                if starts_inside(s, st0.working@, r_eff as int, j as int) {
                    let (l, u) = choose|l: int, u: int|
                        #![trigger cell(st0.working@, m, l, u)]
                        0 <= l < r_eff < u < j && cell(st0.working@, m, l, u) <= 0;
                    assert(cell(st0.working@, m, l, u) <= 0);
                }
            }
        }
        self.phase3_decrement(r_old + 1, r_eff + 1, j, len);
        if new_hall || inside {
            proof {
                assert(lb_clear(
                    &st0,
                    new_lb as int,
                    new_ub as int,
                    old_lb as int,
                    chain@,
                    r_old as int,
                    r_eff as int,
                    j as int,
                    1,
                ));
            }
            return Ok(CumulativeOutcome::CannotSkip);
        }
        proof {
            assert(lb_clear(
                &st0,
                new_lb as int,
                new_ub as int,
                old_lb as int,
                chain@,
                r_old as int,
                r_eff as int,
                j as int,
                2,
            ));
            assert(self.working_sound());
        }
        if chain.len() > 0 {
            proof {
                lemma_climb_within(s, st0.working@, new_lb as int, j as int, chain@);
                assert(in_limits(self.cached_lb@[i as int] as int));
                self.lemma_bound_limited(r_eff as int);
            }
            let reason: Vec<BoolView> = self.build_push_reason(
                ctx,
                i,
                IntLitMeaning::GreaterEq(new_lb),
                &chain,
            );
            let ghost builder = ReasonBuilder::Atoms(reason);
            proof {
                assert forall|ints: IntAssignment, bools: BoolAssignment|
                    #[trigger] ctx0.admits(ints, bools) implies builder.holds(ints, bools) by {
                    self.lemma_push_reason_holds(&ctx0, i as int, chain@, ints, bools);
                    lemma_view_bounds(&ctx0, view, ints, bools);
                    assert(all_hold(reason@, ints, bools));
                }
                assert forall|ints: IntAssignment, bools: BoolAssignment|
                    #[trigger] rule(ints, bools) && builder.holds(ints, bools) implies at_least(
                    view,
                    effective as int,
                )(ints, bools) by {
                    assert(all_hold(reason@, ints, bools));
                    lemma_chain_kept_same(&st0, self, i as int, chain@, ints, bools);
                    lemma_pushed_lower_follows(
                        &st0,
                        i as int,
                        new_lb as int,
                        j as int,
                        chain@,
                        ints,
                        bools,
                    );
                }
            }
            self.prop_pushes = self.prop_pushes.saturating_add(1);
            let r: Result<(), Conflict> = ctx.tighten_min(
                view,
                effective,
                ReasonBuilder::Atoms(reason),
            );
            proof {
                lemma_climb_grows(s, st0.working@, new_lb as int, j as int, chain@);
                lemma_bound_moved(
                    &ctx0,
                    ctx,
                    view,
                    effective as int,
                    false,
                    builder,
                    r,
                );
                assert(all_by_chains(&st0, &ctx0, ctx)) by {
                    let c = ctx.propagation_queue@.last();
                    assert(builder.builds(c.reason));
                    assert(says_chain(self, i as int, false, new_lb as int, chain@, reason@));
                    lemma_says_chain_same(
                        &st0,
                        self,
                        i as int,
                        false,
                        new_lb as int,
                        chain@,
                        reason@,
                    );
                    let step = at_least(view, effective as int);
                    assert forall|ints: IntAssignment, bools: BoolAssignment| #[trigger]
                        c.lit.holds(ints, bools) == step(ints, bools) by {}
                    assert(pushed_along(&st0, i as int, false, new_lb as int, chain@, c));
                    assert forall|q: int|
                        ctx0.propagation_queue.len() <= q
                            < ctx.propagation_queue.len() implies pushed_by_chain(
                        &st0,
                        #[trigger] ctx.propagation_queue[q],
                    ) by {
                        assert(ctx.propagation_queue[q] == c);
                    }
                }
                lemma_infers_step(
                    &ctx0,
                    &ctx0,
                    ctx,
                    rule,
                    at_least(view, effective as int),
                    builder,
                    r,
                );
                lemma_views_narrowed(&ctx0, ctx, self.vars());
                assert forall|k: int|
                    0 <= k < self.vars().len() implies self.cached_lb[k] <= ctx.view_min(
                    #[trigger] self.vars()[k],
                ) && ctx.view_max(self.vars()[k]) <= self.cached_ub[k] by {
                    assert(st0.cached_lb[k] <= ctx0.view_min(st0.vars()[k]));
                }
            }
            match r {
                Ok(()) => {},
                Err(conflict) => {
                    return Err(conflict);
                },
            }
            proof {
                if all_separate(&ctx0, st0.vars()) {
                    lemma_climb_grows(s, st0.working@, new_lb as int, j as int, chain@);
                    assert(new_lb <= effective <= new_ub);
                    assert forall|k: int| 0 <= k < st0.vars().len() implies ctx0.has_view(
                        #[trigger] st0.vars()[k],
                    ) by {}
                    lemma_plain_restricted(
                        &ctx0,
                        ctx,
                        st0.vars(),
                        i as int,
                        effective as int,
                        false,
                    );
                }
            }
        }
        Ok(CumulativeOutcome::Skip)
    }

    /// No value is left for a view that is pushed beyond its upper bound.
    proof fn lemma_wiped_out(
        &self,
        ctx: &SolvingContext,
        i: int,
        new_lb: int,
        new_ub: int,
        j: int,
        chain: Seq<(usize, usize)>,
    )
        requires
            self.checkable(ctx),
            0 <= i < self.vars().len(),
            new_lb == ctx.view_min(self.vars()[i]),
            new_ub == ctx.view_max(self.vars()[i]),
            self.cached_lb[i] < new_lb,
            climbs(self.s_bounds@, self.working@, new_lb, j, chain),
            climb_end(self.s_bounds@, new_lb, chain) > new_ub,
        ensures
            forall|ints: IntAssignment, bools: BoolAssignment|
                !(#[trigger] ctx.admits(ints, bools) && all_different(self.vars())(ints, bools)),
            chain.len() > 0 ==> self.cached_lb[i] < self.s_bounds[chain.last().0 as int],
    {
        assert forall|ints: IntAssignment, bools: BoolAssignment|
            !(#[trigger] ctx.admits(ints, bools) && all_different(self.vars())(ints, bools)) by {
            if ctx.admits(ints, bools) && all_different(self.vars())(ints, bools) {
                assert(ctx.has_view(self.vars()[i]));
                lemma_view_bounds(ctx, self.vars()[i], ints, bools);
                lemma_climb_sound(self, ctx, i, new_lb, j, chain, ints, bools);
            }
        }
        if chain.len() > 0 {
            lemma_climb_grows(self.s_bounds@, self.working@, new_lb, j, chain.drop_last());
        }
    }

    /// The reason for a push holds.
    proof fn lemma_push_reason_holds(
        &self,
        ctx: &SolvingContext,
        i: int,
        chain: Seq<(usize, usize)>,
        ints: IntAssignment,
        bools: BoolAssignment,
    )
        requires
            self.current(ctx),
            ctx.wf(),
            has_views(ctx, self.vars()),
            ctx.admits(ints, bools),
        ensures
            chain_kept(self, i, chain, chain.len() as int, ints, bools),
    {
        assert forall|t: int| 0 <= t < chain.len() implies interval_kept(
            self,
            i,
            (#[trigger] chain[t]).0 as int,
            chain[t].1 as int,
            self.vars().len() as int,
            ints,
            bools,
        ) by {
            assert forall|k: int|
                0 <= k < self.vars().len() && k != i && encloses(
                    self.cached_lb@,
                    self.cached_ub@,
                    self.s_bounds[chain[t].0 as int] as int,
                    self.s_bounds[chain[t].1 as int] as int,
                    k,
                ) implies self.s_bounds[chain[t].0 as int] <= (#[trigger] self.vars()[k]).eval(
                ints,
                bools,
            ) < self.s_bounds[chain[t].1 as int] by {
                assert(ctx.has_view(self.vars()[k]));
                lemma_view_bounds(ctx, self.vars()[k], ints, bools);
            }
        }
    }
}

/// Moving a bound of the view within its bounds is news.
proof fn lemma_bound_moved(
    before: &SolvingContext,
    after: &SolvingContext,
    view: IntView,
    bound: int,
    upper: bool,
    reason: ReasonBuilder,
    r: Result<(), Conflict>,
)
    requires
        before.wf(),
        before.has_view(view),
        after.restricts(
            before,
            if upper {
                at_most(view, bound)
            } else {
                at_least(view, bound)
            },
            reason,
            r,
        ),
        before.view_min(view) <= bound <= before.view_max(view),
        bound != if upper {
            before.view_max(view)
        } else {
            before.view_min(view)
        },
    ensures
        r is Ok,
        after.propagation_queue.len() == before.propagation_queue.len() + 1,
{
    let (low, high) = lemma_bounds_taken(before, view);
    assert(before.admits(low.0, low.1) && before.admits(high.0, high.1));
    if r is Ok && after.propagation_queue.len() == before.propagation_queue.len() {
        assert(after.admits(low.0, low.1) && after.admits(high.0, high.1));
    }
}

proof fn lemma_climb_grows(
    s: Seq<IntVal>,
    table: Seq<IntVal>,
    from: int,
    j: int,
    chain: Seq<(usize, usize)>,
)
    requires
        ascending(s),
        climbs(s, table, from, j, chain),
    ensures
        from <= climb_end(s, from, chain),
        chain.len() > 0 ==> from < climb_end(s, from, chain),
    decreases chain.len(),
{
    if chain.len() > 0 {
        lemma_climb_grows(s, table, from, j, chain.drop_last());
        let (l, u) = chain.last();
        assert(s[l as int] < s[u as int]);
    }
}

proof fn lemma_sink_falls(
    s: Seq<IntVal>,
    table: Seq<IntVal>,
    from: int,
    r: int,
    chain: Seq<(usize, usize)>,
)
    requires
        ascending(s),
        sinks(s, table, from, r, chain),
    ensures
        sink_end(s, from, chain) <= from,
        chain.len() > 0 ==> sink_end(s, from, chain) < from,
    decreases chain.len(),
{
    if chain.len() > 0 {
        lemma_sink_falls(s, table, from, r, chain.drop_last());
        let (l, u) = chain.last();
        assert(s[l as int] < s[u as int]);
    }
}

impl IntUniqueBoundsCumulativeSlack {
    /// Look at an upper bound that has changed.
    #[verifier::spinoff_prover]
    fn check_var_ub(
        &mut self,
        ctx: &mut SolvingContext,
        i: usize,
        new_lb: IntVal,
        new_ub: IntVal,
        old_ub: IntVal,
    ) -> (r: Result<CumulativeOutcome, Conflict>)
        requires
            old(self).checkable(old(ctx)),
            i < old(self).vars().len(),
            new_lb == old(ctx).view_min(old(self).vars()[i as int]),
            new_ub == old(ctx).view_max(old(self).vars()[i as int]),
            in_limits(new_lb as int),
            in_limits(new_ub as int),
            new_lb <= new_ub,
            old_ub == old(self).cached_ub[i as int],
            new_ub < old_ub,
        ensures
            final(self).same_but_working(old(self)),
            final(self).same_runs(old(self)),
            final(self).prop_pushes == counted(
                old(self).prop_pushes,
                final(ctx).propagation_queue.len() - old(ctx).propagation_queue.len(),
            ),
            all_by_chains(old(self), old(ctx), final(ctx)),
            final(self).working.len() == old(self).working.len(),
            final(ctx).infers(old(ctx), all_different(old(self).vars()), outcome(r)),
            final(ctx).trail == old(ctx).trail,
            has_views(final(ctx), old(self).vars()),
            final(self).current(final(ctx)),
            match r {
                Ok(CumulativeOutcome::Skip) => {
                    &&& final(self).checkable(final(ctx))
                    &&& exists|chain: Seq<(usize, usize)>, r_old: int, u_eff: int, r_lb: int|
                        #[trigger] ub_clear(
                            old(self),
                            new_lb as int,
                            new_ub as int,
                            old_ub as int,
                            chain,
                            r_old,
                            u_eff,
                            r_lb,
                            2,
                        ) && rect_taken(old(self), final(self), 0, r_lb + 1, u_eff, r_old)
                            && final(ctx).view_max(old(self).vars()[i as int])
                            < old(self).s_bounds[u_eff] && (chain.len() == 0 ==> *final(ctx)
                            == *old(ctx)) && (all_separate(old(ctx), old(self).vars())
                            ==> only_moved(
                            old(ctx),
                            final(ctx),
                            old(self).vars(),
                            i as int,
                            old(self).s_bounds[u_eff] - 1,
                            true,
                        ))
                },
                Ok(CumulativeOutcome::CannotSkip) => {
                    &&& *final(ctx) == *old(ctx)
                    &&& {
                        ||| !old(self).s_bounds@.contains((new_ub + 1) as IntVal)
                        ||| !old(self).s_bounds@.contains(new_lb)
                        ||| exists|chain: Seq<(usize, usize)>, r_old: int, u_eff: int, r_lb: int|
                            #[trigger] ub_clear(
                                old(self),
                                new_lb as int,
                                new_ub as int,
                                old_ub as int,
                                chain,
                                r_old,
                                u_eff,
                                r_lb,
                                1,
                            ) && !ub_clear(
                                old(self),
                                new_lb as int,
                                new_ub as int,
                                old_ub as int,
                                chain,
                                r_old,
                                u_eff,
                                r_lb,
                                2,
                            )
                        ||| upper_blocked(
                            old(self),
                            new_lb as int,
                            new_ub as int,
                            old_ub as int,
                        )
                    }
                },
                Err(conflict) => *final(ctx) == *old(ctx) && exists|l: int, u: int|
                    #[trigger] crowded_out(old(self), old(ctx), i as int, l, u, conflict),
            },
    {
        let ghost st0 = *self;
        let ghost ctx0 = *ctx;
        let ghost rule = all_different(self.vars());
        let ghost s = self.s_bounds@;
        let ghost m = s.len() as int;
        let view: IntView = self.bounds.var[i];
        proof {
            assert(ctx.has_view(self.vars()[i as int]));
            lemma_infers_nothing(&ctx0, rule);
            assert(in_limits(self.cached_lb@[i as int] as int) && in_limits(
                self.cached_ub@[i as int] as int,
            ));
            assert(is_end(self.cached_lb@, self.cached_ub@, i as int, (old_ub + 1) as IntVal));
        }
        let r_lb: usize = match self.known_rank(new_lb) {
            Some(k) => k,
            None => {
                return Ok(CumulativeOutcome::CannotSkip);
            },
        };
        let r_old: usize = match self.known_rank(old_ub + 1) {
            Some(k) => k,
            None => {
                return Ok(CumulativeOutcome::CannotSkip);
            },
        };
        let (effective, chain): (IntVal, Vec<(usize, usize)>) = match self.phase1_push_ub(
            new_lb,
            new_ub,
            r_lb,
        ) {
            Phase1Outcome::Done(end, chain) => (end, chain),
            Phase1Outcome::WipeOut(l, u) => {
                return Err(self.declare_overcrowded_conflict(ctx, l, u));
            },
            Phase1Outcome::BoundsMiss => {
                return Ok(CumulativeOutcome::CannotSkip);
            },
        };
        proof {
            lemma_sink_falls(s, self.working@, new_ub as int, r_lb as int, chain@);
        }
        let u_eff: usize = match self.known_rank(effective + 1) {
            Some(k) => k,
            None => {
                return Ok(CumulativeOutcome::CannotSkip);
            },
        };
        proof {
            let k = choose|k: int|
                0 <= k < m && #[trigger] s[k] == effective + 1 && col_free(
                    s,
                    self.working@,
                    k,
                    r_lb as int,
                );
            assert(k == u_eff) by {
                if k < u_eff {
                    assert(s[k] < s[u_eff as int]);
                } else if u_eff < k {
                    assert(s[u_eff as int] < s[k]);
                }
            }
        }
        let new_hall: bool = match self.phase2_scan(0, r_lb + 1, u_eff, r_old) {
            Phase2Outcome::Clean => false,
            Phase2Outcome::NewHallWouldForm => true,
            Phase2Outcome::Overcrowded(l, u) => {
                if self.s_bounds[u] <= new_ub {
                    proof {
                        assert(upper_blocked_at(
                            &st0,
                            new_lb as int,
                            new_ub as int,
                            old_ub as int,
                            chain@,
                            r_old as int,
                            u_eff as int,
                            r_lb as int,
                            l as int,
                            u as int,
                        )) by {
                            if chain.len() == 0 {
                                assert(s[u_eff as int] == new_ub + 1);
                                if u_eff < u {
                                    assert(s[u_eff as int] < s[u as int]);
                                }
                            }
                        }
                    }
                    return Ok(CumulativeOutcome::CannotSkip);
                }
                let conflict: Conflict = self.declare_overcrowded_conflict(ctx, l, u);
                proof {
                    assert(cell(self.working@, m, l as int, u as int) <= 0);
                    assert(s[u as int] < s[r_old as int]);
                    assert(s[l as int] <= s[r_lb as int]) by {
                        if l < r_lb {
                            assert(s[l as int] < s[r_lb as int]);
                        }
                    }
                    assert(s[u_eff as int] <= s[u as int]) by {
                        if u_eff < u {
                            assert(s[u_eff as int] < s[u as int]);
                        }
                    }
                    assert forall|ints: IntAssignment, bools: BoolAssignment|
                        !(#[trigger] ctx0.admits(ints, bools) && rule(ints, bools)) by {
                        if ctx0.admits(ints, bools) && rule(ints, bools) {
                            lemma_view_bounds(&ctx0, view, ints, bools);
                            lemma_sink_sound(
                                &st0,
                                &ctx0,
                                i as int,
                                new_ub as int,
                                r_lb as int,
                                chain@,
                                ints,
                                bools,
                            );
                            lemma_used_up(
                                &st0,
                                &ctx0,
                                i as int,
                                l as int,
                                u as int,
                                ints,
                                bools,
                            );
                        }
                    }
                    lemma_crowd_explained(&st0, &ctx0, i as int, l as int, u as int, conflict);
                    lemma_conflict_inferred(&ctx0, rule, conflict);
                    assert(crowded_out(&st0, &ctx0, i as int, l as int, u as int, conflict));
                }
                return Err(conflict);
            },
        };
        let len: usize = self.s_bounds.len();
        let inside: bool = self.used_up_within(r_lb + 1, u_eff, u_eff + 1, len);
        proof {
            assert(inside == ends_inside(s, st0.working@, u_eff as int, r_lb as int)) by {
                if inside {
                    let (l, u) = choose|l: int, u: int|
                        #![trigger cell(st0.working@, m, l, u)]
                        r_lb + 1 <= l < u_eff && u_eff + 1 <= u < m && cell(
                            st0.working@,
                            m,
                            l,
                            u,
                        ) <= 0;
                    assert(cell(st0.working@, m, l, u) <= 0);
                }
                if ends_inside(s, st0.working@, u_eff as int, r_lb as int) {
                    let (l, u) = choose|l: int, u: int|
                        #![trigger cell(st0.working@, m, l, u)]
                        r_lb < l < u_eff < u < m && cell(st0.working@, m, l, u) <= 0;
                    assert(cell(st0.working@, m, l, u) <= 0);
                }
            }
        }
        self.phase3_decrement(0, r_lb + 1, u_eff, r_old);
        if new_hall || inside {
            proof {
                assert(ub_clear(
                    &st0,
                    new_lb as int,
                    new_ub as int,
                    old_ub as int,
                    chain@,
                    r_old as int,
                    u_eff as int,
                    r_lb as int,
                    1,
                ));
            }
            return Ok(CumulativeOutcome::CannotSkip);
        }
        proof {
            assert(ub_clear(
                &st0,
                new_lb as int,
                new_ub as int,
                old_ub as int,
                chain@,
                r_old as int,
                u_eff as int,
                r_lb as int,
                2,
            ));
            assert(self.working_sound());
        }
        if chain.len() > 0 {
            proof {
                lemma_sink_within(s, st0.working@, new_ub as int, r_lb as int, chain@);
                self.lemma_bound_limited(u_eff as int);
            }
            let reason: Vec<BoolView> = self.build_push_reason(
                ctx,
                i,
                IntLitMeaning::Less(new_ub + 1),
                &chain,
            );
            let ghost builder = ReasonBuilder::Atoms(reason);
            proof {
                assert forall|ints: IntAssignment, bools: BoolAssignment|
                    #[trigger] ctx0.admits(ints, bools) implies builder.holds(ints, bools) by {
                    self.lemma_push_reason_holds(&ctx0, i as int, chain@, ints, bools);
                    lemma_view_bounds(&ctx0, view, ints, bools);
                    assert(all_hold(reason@, ints, bools));
                }
                assert forall|ints: IntAssignment, bools: BoolAssignment|
                    #[trigger] rule(ints, bools) && builder.holds(ints, bools) implies at_most(
                    view,
                    effective as int,
                )(ints, bools) by {
                    assert(all_hold(reason@, ints, bools));
                    lemma_chain_kept_same(&st0, self, i as int, chain@, ints, bools);
                    lemma_pushed_upper_follows(
                        &st0,
                        i as int,
                        new_ub as int,
                        r_lb as int,
                        chain@,
                        ints,
                        bools,
                    );
                }
            }
            self.prop_pushes = self.prop_pushes.saturating_add(1);
            let r: Result<(), Conflict> = ctx.tighten_max(
                view,
                effective,
                ReasonBuilder::Atoms(reason),
            );
            proof {
                lemma_sink_falls(s, st0.working@, new_ub as int, r_lb as int, chain@);
                lemma_bound_moved(
                    &ctx0,
                    ctx,
                    view,
                    effective as int,
                    true,
                    builder,
                    r,
                );
                assert(all_by_chains(&st0, &ctx0, ctx)) by {
                    let c = ctx.propagation_queue@.last();
                    assert(builder.builds(c.reason));
                    assert(says_chain(self, i as int, true, new_ub as int, chain@, reason@));
                    lemma_says_chain_same(
                        &st0,
                        self,
                        i as int,
                        true,
                        new_ub as int,
                        chain@,
                        reason@,
                    );
                    let step = at_most(view, effective as int);
                    assert forall|ints: IntAssignment, bools: BoolAssignment| #[trigger]
                        c.lit.holds(ints, bools) == step(ints, bools) by {}
                    assert(pushed_along(&st0, i as int, true, new_ub as int, chain@, c));
                    assert forall|q: int|
                        ctx0.propagation_queue.len() <= q
                            < ctx.propagation_queue.len() implies pushed_by_chain(
                        &st0,
                        #[trigger] ctx.propagation_queue[q],
                    ) by {
                        assert(ctx.propagation_queue[q] == c);
                    }
                }
                lemma_infers_step(
                    &ctx0,
                    &ctx0,
                    ctx,
                    rule,
                    at_most(view, effective as int),
                    builder,
                    r,
                );
                lemma_views_narrowed(&ctx0, ctx, self.vars());
                assert forall|k: int|
                    0 <= k < self.vars().len() implies self.cached_lb[k] <= ctx.view_min(
                    #[trigger] self.vars()[k],
                ) && ctx.view_max(self.vars()[k]) <= self.cached_ub[k] by {
                    assert(st0.cached_lb[k] <= ctx0.view_min(st0.vars()[k]));
                }
            }
            match r {
                Ok(()) => {},
                Err(conflict) => {
                    return Err(conflict);
                },
            }
            proof {
                if all_separate(&ctx0, st0.vars()) {
                    lemma_sink_falls(s, st0.working@, new_ub as int, r_lb as int, chain@);
                    assert(new_lb <= effective <= new_ub);
                    assert forall|k: int| 0 <= k < st0.vars().len() implies ctx0.has_view(
                        #[trigger] st0.vars()[k],
                    ) by {}
                    lemma_plain_restricted(
                        &ctx0,
                        ctx,
                        st0.vars(),
                        i as int,
                        effective as int,
                        true,
                    );
                }
            }
        }
        Ok(CumulativeOutcome::Skip)
    }

    /// Whether the bounds of the views lie within those that are remembered.
    fn is_current(&self, ctx: &SolvingContext) -> (r: bool)
        requires
            self.wf(),
            ctx.wf(),
            has_views(ctx, self.vars()),
        ensures
            r == self.current(ctx),
    {
        let mut i: usize = 0;
        while i < self.bounds.var.len()
            invariant
                i <= self.vars().len(),
                self.wf(),
                ctx.wf(),
                has_views(ctx, self.vars()),
                forall|k: int|
                    0 <= k < i ==> self.cached_lb[k] <= ctx.view_min(#[trigger] self.vars()[k])
                        && ctx.view_max(self.vars()[k]) <= self.cached_ub[k],
            decreases self.vars().len() - i,
        {
            proof {
                assert(ctx.has_view(self.vars()[i as int]));
            }
            let (lb, ub): (IntVal, IntVal) = ctx.bounds(self.bounds.var[i]);
            if lb < self.cached_lb[i] || ub > self.cached_ub[i] {
                return false;
            }
            i = i + 1;
        }
        true
    }

    /// Look at the views whose bounds have changed, in an order that is left open. Domains that
    /// have grown, as when assumptions are taken back, are not compared with the last fixed
    /// point.
    #[verifier::spinoff_prover]
    #[verifier::rlimit(80)]
    pub fn cumulative_check(&mut self, ctx: &mut SolvingContext) -> (r: Result<
        CumulativeOutcome,
        Conflict,
    >)
        requires
            old(self).wf(),
            old(self).cache_valid,
            old(ctx).wf(),
            has_views(old(ctx), old(self).vars()),
        ensures
            final(self).same_but_working(old(self)),
            final(self).same_runs(old(self)),
            // The consequences are the bounds that were pushed.
            final(self).prop_pushes == counted(
                old(self).prop_pushes,
                final(ctx).propagation_queue.len() - old(ctx).propagation_queue.len(),
            ),
            all_by_chains(old(self), old(ctx), final(ctx)),
            !old(self).current(old(ctx)) ==> r == Ok::<CumulativeOutcome, Conflict>(
                CumulativeOutcome::CannotSkip,
            ) && *final(ctx) == *old(ctx),
            final(ctx).infers(old(ctx), all_different(old(self).vars()), outcome(r)),
            final(ctx).trail == old(ctx).trail,
            has_views(final(ctx), old(self).vars()),
            old(self).current(old(ctx)) ==> final(self).current(final(ctx)),
            old(self).current(old(ctx)) && (forall|k: usize|
                !#[trigger] old(self).var_updated@.contains(k)) ==> r == Ok::<
                CumulativeOutcome,
                Conflict,
            >(CumulativeOutcome::Skip) && *final(ctx) == *old(ctx),
            r == Ok::<CumulativeOutcome, Conflict>(CumulativeOutcome::Skip) ==> forall|k: usize|
                #[trigger] old(self).var_updated@.contains(k) ==> old(self).passed(
                    old(ctx),
                    final(ctx),
                    k as int,
                ),
            // A skip leaves no interval filled, if the views are separate and all were reported.
            r == Ok::<CumulativeOutcome, Conflict>(CumulativeOutcome::Skip) && all_separate(
                old(ctx),
                old(self).vars(),
            ) && all_reported(old(self), old(ctx)) ==> none_filled(old(self), final(ctx)),
            // Nor does it leave a view that starts or ends in an interval that is used up, if
            // there was none at the last fixed point.
            r == Ok::<CumulativeOutcome, Conflict>(CumulativeOutcome::Skip) && all_separate(
                old(ctx),
                old(self).vars(),
            ) && all_reported(old(self), old(ctx)) && none_straddled(
                old(self).s_bounds@,
                old(self).cached_lb@,
                old(self).cached_ub@,
            ) ==> none_straddled(
                old(self).s_bounds@,
                view_mins(final(ctx), old(self).vars()),
                view_maxs(final(ctx), old(self).vars()),
            ),
            r == Ok::<CumulativeOutcome, Conflict>(CumulativeOutcome::CannotSkip) ==> !old(
                self,
            ).current(old(ctx)) || exists|k: usize| #[trigger]
                old(self).var_updated@.contains(k) && old(self).stuck(
                    old(ctx),
                    final(ctx),
                    k as int,
                ),
    {
        let ghost st0 = *self;
        let ghost ctx0 = *ctx;
        let ghost rule = all_different(self.vars());
        proof {
            lemma_infers_nothing(&ctx0, rule);
        }
        if !self.is_current(ctx) {
            return Ok(CumulativeOutcome::CannotSkip);
        }
        self.working = copy_values(&self.slack);
        let updated: Vec<usize> = set_elements(&self.var_updated);
        proof {
            assert forall|k: int| 0 <= k < updated.len() implies #[trigger] updated[k]
                < self.vars().len() by {
                assert(updated@.contains(updated[k]));
            }
            assert forall|k: int| 0 <= k < updated.len() implies st0.var_updated@.contains(
                #[trigger] updated[k],
            ) by {
                assert(updated@.contains(updated[k]));
            }
            assert(st0.same_but_working(self));
            if updated.len() > 0 {
                assert(updated@.contains(updated[0]));
                assert(st0.var_updated@.contains(updated[0]));
            }
        }
        let ghost apart = all_separate(&ctx0, st0.vars());
        let ghost rested = apart && none_straddled(st0.s_bounds@, st0.cached_lb@, st0.cached_ub@);
        let ghost mut mlb = st0.cached_lb@;
        let ghost mut mub = st0.cached_ub@;
        proof {
            if rested {
                lemma_rested_clear(&st0);
            }
            assert(budget_kept(self.working@, st0.s_bounds@, mlb, mub)) by {
                assert forall|l: int, u: int|
                    #![trigger cell(self.working@, st0.s_bounds.len() as int, l, u)]
                    0 <= l < u < st0.s_bounds.len() implies cell(
                    self.working@,
                    st0.s_bounds.len() as int,
                    l,
                    u,
                ) <= spare(st0.s_bounds@, mlb, mub, l, u) by {
                    assert(cell(self.slack@, st0.s_bounds.len() as int, l, u) == spare(
                        st0.s_bounds@,
                        mlb,
                        mub,
                        l,
                        u,
                    ));
                }
            }
        }
        let mut t: usize = 0;
        while t < updated.len()
            invariant
                t <= updated.len(),
                st0 == *old(self),
                ctx0 == *old(ctx),
                ctx0.wf(),
                rule == all_different(st0.vars()),
                self.same_but_working(&st0),
                self.same_runs(&st0),
                self.prop_pushes == counted(
                    st0.prop_pushes,
                    ctx.propagation_queue.len() - ctx0.propagation_queue.len(),
                ),
                st0.current(&ctx0),
                all_by_chains(&st0, &ctx0, ctx),
                self.checkable(ctx),
                ctx.infers(&ctx0, rule, Ok(())),
                ctx.trail == ctx0.trail,
                forall|k: int|
                    0 <= k < updated.len() ==> #[trigger] updated[k] < self.vars().len(),
                updated.len() > 0 ==> st0.var_updated@.contains(updated[0]),
                t == 0 ==> *ctx == ctx0,
                forall|k: int|
                    0 <= k < updated.len() ==> st0.var_updated@.contains(#[trigger] updated[k]),
                forall|k: int|
                    0 <= k < t ==> st0.passed(&ctx0, ctx, (#[trigger] updated[k]) as int),
                apart ==> all_separate(ctx, st0.vars()),
                updated@.no_duplicates(),
                apart ==> budget_kept(self.working@, st0.s_bounds@, mlb, mub),
                apart ==> mixed_bounds(&st0, &ctx0, ctx, updated@, t as int, mlb, mub),
                rested ==> apart,
                rested ==> clear_of_used(&st0, mlb, mub),
            decreases updated.len() - t,
        {
            let i: usize = updated[t];
            let ghost low = *self;
            let ghost mid = *ctx;
            proof {
                lemma_infers_nothing(&mid, rule);
                assert(ctx.has_view(self.vars()[i as int]));
                assert(self.cached_lb[i as int] <= ctx.view_min(self.vars()[i as int]));
            }
            let (new_lb, new_ub): (IntVal, IntVal) = ctx.bounds(self.bounds.var[i]);
            let old_lb: IntVal = self.cached_lb[i];
            let old_ub: IntVal = self.cached_ub[i];
            let ghost mut lower: Option<(int, int, int)> = None;
            let ghost mut upper: Option<(int, int, int)> = None;
            if new_lb > old_lb {
                let ghost ctx1 = *ctx;
                let r: Result<CumulativeOutcome, Conflict> = self.check_var_lb(
                    ctx,
                    i,
                    new_lb,
                    new_ub,
                    old_lb,
                );
                proof {
                    lemma_by_chains_join(&st0, &low, &ctx0, &ctx1, ctx);
                    lemma_infers_join(&ctx0, &ctx1, ctx, rule, outcome(r));
                    lemma_views_narrowed(&ctx1, ctx, self.vars());
                    assert(ctx1.view_min(self.vars()[i as int]) <= ctx.view_min(
                        self.vars()[i as int],
                    ));
                    assert(ctx.view_max(self.vars()[i as int]) <= ctx1.view_max(
                        self.vars()[i as int],
                    ));
                }
                match r {
                    Ok(CumulativeOutcome::Skip) => {},
                    _ => {
                        proof {
                            if r == Ok::<CumulativeOutcome, Conflict>(
                                CumulativeOutcome::CannotSkip,
                            ) {
                                assert(st0.stuck_at(&ctx0, ctx, i as int, mid, low));
                            }
                        }
                        return r;
                    },
                }
            }
            let ghost high = *self;
            let ghost pushed = *ctx;
            proof {
                if new_lb > old_lb {
                    let (chain, r_old, r_eff, j) = choose|
                        chain: Seq<(usize, usize)>,
                        r_old: int,
                        r_eff: int,
                        j: int,
                    | #[trigger]
                        lb_clear(
                            &low,
                            new_lb as int,
                            new_ub as int,
                            old_lb as int,
                            chain,
                            r_old,
                            r_eff,
                            j,
                            2,
                        ) && rect_taken(
                            &low,
                            &high,
                            r_old + 1,
                            r_eff + 1,
                            j,
                            low.s_bounds.len() as int,
                        ) && (all_separate(&mid, low.vars()) ==> only_moved(
                            &mid,
                            &pushed,
                            low.vars(),
                            i as int,
                            low.s_bounds[r_eff] as int,
                            false,
                        ));
                    lower = Some((r_old, r_eff, j));
                }
                assert(pushed.grows(&mid) && pushed.narrows(&mid));
                lemma_infers_nothing(&pushed, rule);
                lemma_narrows_later(&ctx0, &mid, &pushed);
                assert(ctx.has_view(self.vars()[i as int]));
            }
            let (new_lb, new_ub): (IntVal, IntVal) = ctx.bounds(self.bounds.var[i]);
            if new_ub < old_ub {
                let ghost ctx1 = *ctx;
                let r: Result<CumulativeOutcome, Conflict> = self.check_var_ub(
                    ctx,
                    i,
                    new_lb,
                    new_ub,
                    old_ub,
                );
                proof {
                    lemma_by_chains_join(&st0, &high, &ctx0, &ctx1, ctx);
                    lemma_infers_join(&ctx0, &ctx1, ctx, rule, outcome(r));
                }
                match r {
                    Ok(CumulativeOutcome::Skip) => {},
                    _ => {
                        proof {
                            if r == Ok::<CumulativeOutcome, Conflict>(
                                CumulativeOutcome::CannotSkip,
                            ) {
                                assert(st0.stuck_at(&ctx0, ctx, i as int, pushed, high));
                            }
                        }
                        return r;
                    },
                }
            }
            proof {
                if new_ub < old_ub {
                    let (chain, r_old, u_eff, r_lb) = choose|
                        chain: Seq<(usize, usize)>,
                        r_old: int,
                        u_eff: int,
                        r_lb: int,
                    | #[trigger]
                        ub_clear(
                            &high,
                            new_lb as int,
                            new_ub as int,
                            old_ub as int,
                            chain,
                            r_old,
                            u_eff,
                            r_lb,
                            2,
                        ) && rect_taken(&high, self, 0, r_lb + 1, u_eff, r_old) && (all_separate(
                            &pushed,
                            high.vars(),
                        ) ==> only_moved(
                            &pushed,
                            ctx,
                            high.vars(),
                            i as int,
                            high.s_bounds[u_eff] - 1,
                            true,
                        ));
                    upper = Some((r_old, u_eff, r_lb));
                }
                assert(ctx.grows(&pushed) && ctx.narrows(&pushed));
                lemma_narrows_later(&mid, &pushed, ctx);
                if apart {
                    let view = st0.vars()[i as int];
                    let (x, y) = (ctx.view_min(view) as IntVal, ctx.view_max(view) as IntVal);
                    assert(ctx.has_view(st0.vars()[i as int]));
                    lemma_view_kept_limits(ctx, view);
                    assert(!updated@.take(t as int).contains(i)) by {
                        if updated@.take(t as int).contains(i) {
                            let k = updated@.take(t as int).index_of(i);
                            assert(updated@[k] == updated@[t as int]);
                        }
                    }
                    assert(mlb[i as int] == st0.cached_lb[i as int] && mub[i as int]
                        == st0.cached_ub[i as int]) by {
                        let v = st0.vars()[i as int];
                    }
                    lemma_taken_enough(
                        st0.s_bounds@,
                        low,
                        high,
                        *self,
                        old_lb as int,
                        old_ub as int,
                        mid.view_max(view),
                        x as int,
                        y as int,
                        lower,
                        upper,
                    );
                    lemma_budget_step(
                        st0.s_bounds@,
                        low.working@,
                        self.working@,
                        mlb,
                        mub,
                        i as int,
                        x,
                        y,
                    );
                    let (lbs, ubs) = (mlb, mub);
                    if rested {
                        lemma_clear_step(
                            &st0,
                            low,
                            high,
                            lbs,
                            ubs,
                            i as int,
                            mid.view_max(view),
                            x,
                            y,
                            lower,
                            upper,
                        );
                    }
                    mlb = mlb.update(i as int, x);
                    mub = mub.update(i as int, y);
                    assert forall|k: int|
                        0 <= k < st0.vars().len() && k != i implies ctx.view_min(
                        #[trigger] st0.vars()[k],
                    ) == mid.view_min(st0.vars()[k]) && ctx.view_max(st0.vars()[k])
                        == mid.view_max(st0.vars()[k]) by {
                        assert(pushed.view_min(st0.vars()[k]) == mid.view_min(st0.vars()[k]));
                        assert(pushed.view_max(st0.vars()[k]) == mid.view_max(st0.vars()[k]));
                    }
                    lemma_mixed_step(&st0, &ctx0, &mid, ctx, updated@, t as int, lbs, ubs, x, y);
                }
                assert forall|k: int| 0 <= k < t + 1 implies st0.passed(
                    &ctx0,
                    ctx,
                    (#[trigger] updated[k]) as int,
                ) by {
                    if k < t {
                        st0.lemma_passed_later(&ctx0, &mid, ctx, updated[k] as int);
                    } else {
                        assert(st0.passed_at(&ctx0, ctx, i as int, mid, low, pushed, high));
                    }
                }
            }
            t = t + 1;
        }
        proof {
            assert forall|k: usize| #[trigger] st0.var_updated@.contains(k) implies st0.passed(
                &ctx0,
                ctx,
                k as int,
            ) by {
                assert(updated@.contains(k));
                let j = updated@.index_of(k);
                assert(updated[j] == k);
            }
            if apart && all_reported(&st0, &ctx0) {
                lemma_none_filled(self, &st0, &ctx0, ctx, updated@, mlb, mub);
                if rested {
                    lemma_still_clear(&st0, ctx);
                }
            }
        }
        Ok(CumulativeOutcome::Skip)
    }
}

/// Whether the bounds are those of the views that were looked at, and for the others those of
/// the last fixed point. The bounds of the others have not changed yet.
spec fn mixed_bounds(
    st0: &IntUniqueBoundsCumulativeSlack,
    ctx0: &SolvingContext,
    ctx: &SolvingContext,
    updated: Seq<usize>,
    t: int,
    mlb: Seq<IntVal>,
    mub: Seq<IntVal>,
) -> bool {
    &&& mlb.len() == st0.vars().len()
    &&& mub.len() == st0.vars().len()
    &&& forall|k: int|
        0 <= k < st0.vars().len() ==> mixed_bound(
            st0,
            ctx0,
            ctx,
            #[trigger] st0.vars()[k],
            updated.take(t).contains(k as usize),
            k,
            mlb,
            mub,
        )
}

/// Whether that holds of one view.
spec fn mixed_bound(
    st0: &IntUniqueBoundsCumulativeSlack,
    ctx0: &SolvingContext,
    ctx: &SolvingContext,
    view: IntView,
    seen: bool,
    k: int,
    mlb: Seq<IntVal>,
    mub: Seq<IntVal>,
) -> bool {
    if seen {
        mlb[k] == ctx.view_min(view) && mub[k] == ctx.view_max(view)
    } else {
        &&& mlb[k] == st0.cached_lb[k]
        &&& mub[k] == st0.cached_ub[k]
        &&& ctx.view_min(view) == ctx0.view_min(view)
        &&& ctx.view_max(view) == ctx0.view_max(view)
    }
}

proof fn lemma_view_kept_limits(ctx: &SolvingContext, view: IntView)
    requires
        ctx.wf(),
        ctx.has_view(view),
    ensures
        in_limits(ctx.view_min(view)),
        in_limits(ctx.view_max(view)),
{
}

proof fn lemma_mixed_step(
    st0: &IntUniqueBoundsCumulativeSlack,
    ctx0: &SolvingContext,
    mid: &SolvingContext,
    ctx: &SolvingContext,
    updated: Seq<usize>,
    t: int,
    lbs: Seq<IntVal>,
    ubs: Seq<IntVal>,
    x: IntVal,
    y: IntVal,
)
    requires
        0 <= t < updated.len(),
        updated[t] < st0.vars().len() <= usize::MAX,
        mixed_bounds(st0, ctx0, mid, updated, t, lbs, ubs),
        x == ctx.view_min(st0.vars()[updated[t] as int]),
        y == ctx.view_max(st0.vars()[updated[t] as int]),
        forall|k: int|
            0 <= k < st0.vars().len() && k != updated[t] ==> ctx.view_min(#[trigger] st0.vars()[k])
                == mid.view_min(st0.vars()[k]) && ctx.view_max(st0.vars()[k]) == mid.view_max(
                st0.vars()[k],
            ),
    ensures
        mixed_bounds(
            st0,
            ctx0,
            ctx,
            updated,
            t + 1,
            lbs.update(updated[t] as int, x),
            ubs.update(updated[t] as int, y),
        ),
{
    let more = updated.take(t + 1);
    let mlb = lbs.update(updated[t] as int, x);
    let mub = ubs.update(updated[t] as int, y);
    assert forall|k: int| 0 <= k < st0.vars().len() implies mixed_bound(
        st0,
        ctx0,
        ctx,
        #[trigger] st0.vars()[k],
        more.contains(k as usize),
        k,
        mlb,
        mub,
    ) by {
        assert(mixed_bound(
            st0,
            ctx0,
            mid,
            st0.vars()[k],
            updated.take(t).contains(k as usize),
            k,
            lbs,
            ubs,
        ));
        if k != updated[t] {
            if more.contains(k as usize) {
                let j = more.index_of(k as usize);
                assert(updated[j] == k as usize);
                assert(j < t);
                assert(updated.take(t)[j] == k as usize);
            }
            if updated.take(t).contains(k as usize) {
                let j = updated.take(t).index_of(k as usize);
                assert(more[j] == k as usize);
            }
        } else {
            assert(more[t] == k as usize);
        }
    }
}

proof fn lemma_none_filled(
    st: &IntUniqueBoundsCumulativeSlack,
    st0: &IntUniqueBoundsCumulativeSlack,
    ctx0: &SolvingContext,
    ctx: &SolvingContext,
    updated: Seq<usize>,
    mlb: Seq<IntVal>,
    mub: Seq<IntVal>,
)
    requires
        st.same_but_working(st0),
        st.working_sound(),
        budget_kept(st.working@, st0.s_bounds@, mlb, mub),
        mixed_bounds(st0, ctx0, ctx, updated, updated.len() as int, mlb, mub),
        all_reported(st0, ctx0),
        forall|k: usize| #[trigger] st0.var_updated@.contains(k) ==> updated.contains(k),
        st0.vars().len() <= usize::MAX,
    ensures
        none_filled(st0, ctx),
        view_mins(ctx, st0.vars()) == mlb,
        view_maxs(ctx, st0.vars()) == mub,
{
    let vars = st0.vars();
    let s = st0.s_bounds@;
    let m = s.len() as int;
    assert(updated.take(updated.len() as int) =~= updated);
    assert forall|k: int| 0 <= k < vars.len() implies mlb[k] == ctx.view_min(#[trigger] vars[k])
        && mub[k] == ctx.view_max(vars[k]) by {
        assert(mixed_bound(
            st0,
            ctx0,
            ctx,
            st0.vars()[k],
            updated.contains(k as usize),
            k,
            mlb,
            mub,
        ));
        if !updated.contains(k as usize) {
            assert(!st0.var_updated@.contains(k as usize));
            assert(ctx0.view_min(st0.vars()[k]) == st0.cached_lb[k]);
        }
    }
    assert(view_mins(ctx, vars) =~= mlb) by {
        assert forall|k: int| 0 <= k < vars.len() implies #[trigger] view_mins(ctx, vars)[k]
            == mlb[k] by {
            assert(mlb[k] == ctx.view_min(vars[k]));
        }
    }
    assert(view_maxs(ctx, vars) =~= mub) by {
        assert forall|k: int| 0 <= k < vars.len() implies #[trigger] view_maxs(ctx, vars)[k]
            == mub[k] by {
            assert(mub[k] == ctx.view_max(vars[k]));
            assert(mlb[k] == ctx.view_min(vars[k]));
        }
    }
    assert forall|l: int, u: int|
        #![trigger cell(st0.slack@, m, l, u)]
        0 <= l < u < m && cell(st0.slack@, m, l, u) > 0 implies spare(
        s,
        view_mins(ctx, vars),
        view_maxs(ctx, vars),
        l,
        u,
    ) > 0 by {
        assert(st.s_bounds.len() == m && st.slack@ == st0.slack@);
        assert(cell(st.working@, m, l, u) <= spare(s, mlb, mub, l, u));
        assert(cell(st.working@, m, l, u) <= 0 ==> cell(st.slack@, m, l, u) <= 0);
    }
}

/// Where no interval was filled, those that are used up were so at the last fixed point.
proof fn lemma_still_clear(prop: &IntUniqueBoundsCumulativeSlack, ctx: &SolvingContext)
    requires
        none_filled(prop, ctx),
        clear_of_used(prop, view_mins(ctx, prop.vars()), view_maxs(ctx, prop.vars())),
    ensures
        none_straddled(
            prop.s_bounds@,
            view_mins(ctx, prop.vars()),
            view_maxs(ctx, prop.vars()),
        ),
{
    let s = prop.s_bounds@;
    let (lbs, ubs) = (view_mins(ctx, prop.vars()), view_maxs(ctx, prop.vars()));
    assert forall|l: int, u: int, k: int|
        0 <= l < u < s.len() && 0 <= k < lbs.len() && #[trigger] spare(s, lbs, ubs, l, u)
            <= 0 implies !straddles((#[trigger] lbs[k]) as int, ubs[k] as int, s[l] as int, s[u] as int) by {
        assert(cell(prop.slack@, s.len() as int, l, u) <= 0);
    }
}

/// A copy of the values.
fn copy_values(v: &Vec<IntVal>) -> (r: Vec<IntVal>)
    ensures
        r@ == v@,
{
    let mut r: Vec<IntVal> = Vec::new();
    let mut i: usize = 0;
    while i < v.len()
        invariant
            i <= v.len(),
            r@ == v@.take(i as int),
        decreases v.len() - i,
    {
        r.push(v[i]);
        proof {
            assert(v@.take(i + 1) =~= v@.take(i as int).push(v@[i as int]));
        }
        i = i + 1;
    }
    proof {
        assert(v@.take(v.len() as int) =~= v@);
    }
    r
}

impl IntUniqueBoundsCumulativeSlack {
    /// Look at all bounds.
    fn full_propagate(&mut self, ctx: &mut SolvingContext) -> (r: Result<(), Conflict>)
        requires
            old(self).bounds.wf(),
            old(self).vars().len() > 0,
            old(ctx).wf(),
            has_views(old(ctx), old(self).vars()),
        ensures
            final(self).bounds.wf(),
            final(self).bounds.var == old(self).bounds.var,
            final(self).cached_lb == old(self).cached_lb,
            final(self).cached_ub == old(self).cached_ub,
            final(self).s_bounds == old(self).s_bounds,
            final(self).slack == old(self).slack,
            final(self).working == old(self).working,
            final(self).var_updated == old(self).var_updated,
            final(self).pending_backtrack == old(self).pending_backtrack,
            final(self).cache_valid == old(self).cache_valid,
            final(self).same_counters(old(self)),
            final(ctx).infers(old(ctx), all_different(old(self).vars()), r),
            final(ctx).trail == old(ctx).trail,
            has_views(final(ctx), old(self).vars()),
            final(self).bounds.ranked_in(old(ctx)),
            all_pushed_out(old(self).vars(), old(ctx), final(ctx), true, true),
            r is Ok ==> bounds_consistent(
                &final(self).bounds.ranking,
                final(ctx),
                old(self).vars(),
            ),
    {
        self.bounds.propagate(ctx)
    }

    /// Ask to be told of changed bounds and of backtracking, and to be run when bounds change,
    /// after other propagators.
    pub fn initialize(&self, ctx: &mut InitializationContext)
        requires
            self.vars().len() <= u64::MAX,
        ensures
            final(ctx).priority == PriorityLevel::Low,
            final(ctx).enqueue == old(ctx).enqueue,
            final(ctx).backtrack,
            final(ctx).bool_advice == old(ctx).bool_advice,
            final(ctx).triggers@ == old(ctx).triggers@ + Seq::new(
                self.vars().len(),
                |i: int| IntTrigger { view: self.vars()[i], cond: IntPropCond::Bounds },
            ),
            final(ctx).int_advice@ == old(ctx).int_advice@ + Seq::new(
                self.vars().len(),
                |i: int|
                    IntAdvice { view: self.vars()[i], cond: IntPropCond::Bounds, data: i as u64 },
            ),
    {
        let ghost wanted = Seq::new(
            self.vars().len(),
            |i: int| IntTrigger { view: self.vars()[i], cond: IntPropCond::Bounds },
        );
        let ghost advice = Seq::new(
            self.vars().len(),
            |i: int|
                IntAdvice { view: self.vars()[i], cond: IntPropCond::Bounds, data: i as u64 },
        );
        ctx.priority = PriorityLevel::Low;
        ctx.backtrack = true;
        let mut i: usize = 0;
        while i < self.bounds.var.len()
            invariant
                i <= self.vars().len(),
                self.vars().len() <= u64::MAX,
                ctx.priority == PriorityLevel::Low,
                ctx.enqueue == old(ctx).enqueue,
                ctx.backtrack,
                ctx.bool_advice == old(ctx).bool_advice,
                wanted == Seq::new(
                    self.vars().len(),
                    |i: int| IntTrigger { view: self.vars()[i], cond: IntPropCond::Bounds },
                ),
                advice == Seq::new(
                    self.vars().len(),
                    |i: int|
                        IntAdvice {
                            view: self.vars()[i],
                            cond: IntPropCond::Bounds,
                            data: i as u64,
                        },
                ),
                ctx.triggers@ == old(ctx).triggers@ + wanted.take(i as int),
                ctx.int_advice@ == old(ctx).int_advice@ + advice.take(i as int),
            decreases self.vars().len() - i,
        {
            let view: IntView = self.bounds.var[i];
            ctx.int_advice.push(IntAdvice { view, cond: IntPropCond::Bounds, data: i as u64 });
            ctx.triggers.push(IntTrigger { view, cond: IntPropCond::Bounds });
            proof {
                assert(wanted.take(i + 1) == wanted.take(i as int).push(wanted[i as int]));
                assert(advice.take(i + 1) == advice.take(i as int).push(advice[i as int]));
            }
            i = i + 1;
        }
        assert(wanted.take(i as int) == wanted);
        assert(advice.take(i as int) == advice);
    }

    /// Note that the search has backtracked.
    pub fn advise_of_backtrack(&mut self)
        ensures
            final(self).pending_backtrack,
            forall|k: usize| !#[trigger] final(self).var_updated@.contains(k),
            final(self).same_but_reports(old(self)),
            old(self).wf() ==> final(self).wf(),
    {
        self.pending_backtrack = true;
        self.var_updated = set_new();
    }

    /// Note that the bounds of a view have changed. That alone is no cause for a run.
    pub fn advise_of_int_change(&mut self, data: u64, _event: IntEvent) -> (r: bool)
        requires
            data < old(self).vars().len(),
        ensures
            !r,
            final(self).var_updated@ == old(self).var_updated@.insert(data as usize),
            final(self).pending_backtrack == old(self).pending_backtrack,
            final(self).same_but_reports(old(self)),
            old(self).wf() ==> final(self).wf(),
    {
        set_insert(&mut self.var_updated, data as usize);
        false
    }

    /// Whether nothing differs but what was reported.
    pub open spec fn same_but_reports(&self, other: &IntUniqueBoundsCumulativeSlack) -> bool {
        &&& self.bounds == other.bounds
        &&& self.cached_lb == other.cached_lb
        &&& self.cached_ub == other.cached_ub
        &&& self.s_bounds == other.s_bounds
        &&& self.slack == other.slack
        &&& self.working == other.working
        &&& self.cache_valid == other.cache_valid
        &&& self.same_counters(other)
    }

    /// Whether the bounds can be compared with the last fixed point: there is one, the search has
    /// not backtracked since, and they have only got tighter.
    pub open spec fn comparable(&self, ctx: &SolvingContext) -> bool {
        self.cache_valid && !self.pending_backtrack && self.current(ctx)
    }

    /// Whether there was no need to look at all bounds: the changed ones leave values to spare,
    /// and no interval is filled, if the views are separate and all changes were reported. Where
    /// no view started or ended in an interval that was used up, none does.
    pub open spec fn skips(&self, ctx0: &SolvingContext, ctx: &SolvingContext) -> bool {
        &&& self.comparable(ctx0)
        &&& forall|k: usize| #[trigger]
            self.var_updated@.contains(k) ==> self.passed(ctx0, ctx, k as int)
        &&& all_separate(ctx0, self.vars()) && all_reported(self, ctx0) ==> none_filled(self, ctx)
        &&& all_separate(ctx0, self.vars()) && all_reported(self, ctx0) && none_straddled(
            self.s_bounds@,
            self.cached_lb@,
            self.cached_ub@,
        ) ==> none_straddled(
            self.s_bounds@,
            view_mins(ctx, self.vars()),
            view_maxs(ctx, self.vars()),
        )
    }

    /// Whether a run, with a conflict unless `ok` is set, looked at all bounds as they are in the
    /// middle context, or, if `full` is not set, only at those that have changed, and the counters
    /// tell so.
    pub open spec fn ran(
        &self,
        ctx0: &SolvingContext,
        after: &IntUniqueBoundsCumulativeSlack,
        mid: SolvingContext,
        ctx: &SolvingContext,
        full: bool,
        ok: bool,
    ) -> bool {
        let failed: int = if ok {
            0
        } else {
            1
        };
        &&& after.prop_calls == counted(self.prop_calls, 1)
        &&& after.prop_backtracks == if self.pending_backtrack {
            counted(self.prop_backtracks, 1)
        } else {
            self.prop_backtracks
        }
        &&& after.prop_failures == counted(self.prop_failures, failed)
        // Bounds were pushed before all bounds were looked at.
        &&& mid.between(ctx0, ctx)
        &&& all_by_chains(self, ctx0, &mid)
        &&& after.prop_pushes == counted(
            self.prop_pushes,
            mid.propagation_queue.len() - ctx0.propagation_queue.len(),
        )
        &&& if full {
            &&& after.prop_full == counted(self.prop_full, 1)
            &&& after.prop_skips == self.prop_skips
            &&& after.prop_check_failures == self.prop_check_failures
            &&& after.bounds.ranked_in(&mid)
            &&& all_pushed_out(self.vars(), &mid, ctx, true, true)
            &&& ok ==> bounds_consistent(&after.bounds.ranking, ctx, self.vars())
            &&& !self.comparable(ctx0) ==> mid == *ctx0
        } else {
            &&& after.prop_full == self.prop_full
            &&& after.prop_skips == counted(self.prop_skips, 1 - failed)
            &&& after.prop_check_failures == counted(self.prop_check_failures, failed)
            &&& mid == *ctx
            &&& self.comparable(ctx0)
            &&& ok ==> self.skips(ctx0, ctx)
        }
    }

    /// Look at the bounds that have changed, and at all bounds if need be.
    pub fn propagate(&mut self, ctx: &mut SolvingContext) -> (r: Result<(), Conflict>)
        requires
            old(self).wf(),
            old(self).vars().len() > 0,
            old(ctx).wf(),
            has_views(old(ctx), old(self).vars()),
        ensures
            final(self).wf(),
            final(self).bounds.var == old(self).bounds.var,
            r is Ok ==> final(self).comparable(final(ctx)),
            !final(self).pending_backtrack,
            final(self).cache_valid == r is Ok,
            forall|k: usize| !#[trigger] final(self).var_updated@.contains(k),
            final(ctx).infers(old(ctx), all_different(old(self).vars()), r),
            final(ctx).trail == old(ctx).trail,
            has_views(final(ctx), old(self).vars()),
            // All bounds are looked at unless the changed ones leave values to spare. Without a
            // fixed point to compare with, they are looked at as they are.
            r is Ok ==> exists|mid: SolvingContext, full: bool| #[trigger]
                old(self).ran(old(ctx), final(self), mid, final(ctx), full, true),
            r is Err ==> exists|mid: SolvingContext, full: bool| #[trigger]
                old(self).ran(old(ctx), final(self), mid, final(ctx), full, false),
            r is Ok ==> final(self).bounds.settled(old(ctx), final(ctx)) || old(self).skips(
                old(ctx),
                final(ctx),
            ),
            // Later bounds are compared with these.
            r is Ok ==> forall|k: int|
                0 <= k < final(self).vars().len() ==> (#[trigger] final(self).cached_lb[k])
                    == final(ctx).view_min(final(self).vars()[k]) && final(self).cached_ub[k]
                    == final(ctx).view_max(final(self).vars()[k]),
            // Without changes nothing is done.
            old(self).comparable(old(ctx)) && (forall|k: usize|
                !#[trigger] old(self).var_updated@.contains(k)) ==> r is Ok && *final(ctx) == *old(
                ctx,
            ),
    {
        let ghost ctx0 = *ctx;
        let ghost st0 = *self;
        let ghost rule = all_different(self.vars());
        self.prop_calls = self.prop_calls.saturating_add(1);
        if self.pending_backtrack {
            self.prop_backtracks = self.prop_backtracks.saturating_add(1);
            self.pending_backtrack = false;
            self.cache_valid = false;
            self.var_updated = set_new();
        }
        proof {
            lemma_infers_nothing(&ctx0, rule);
        }
        if self.cache_valid {
            let ghost st1 = *self;
            let outcome: Result<CumulativeOutcome, Conflict> = self.cumulative_check(ctx);
            proof {
                assert forall|q: int|
                    ctx0.propagation_queue.len() <= q
                        < ctx.propagation_queue.len() implies pushed_by_chain(
                    &st0,
                    #[trigger] ctx.propagation_queue[q],
                ) by {
                    lemma_by_chain_same(&st0, &st1, ctx.propagation_queue[q]);
                }
            }
            match outcome {
                Ok(CumulativeOutcome::Skip) => {
                    self.prop_skips = self.prop_skips.saturating_add(1);
                    // Later bounds are compared with these.
                    self.snapshot_after_full(ctx);
                    self.var_updated = set_new();
                    proof {
                        lemma_between_self(&ctx0, ctx);
                        assert forall|k: usize| #[trigger] st0.var_updated@.contains(k) implies
                            st0.passed(&ctx0, ctx, k as int) by {
                            assert(st1.var_updated@.contains(k));
                            st1.lemma_passed_same(&st0, &ctx0, ctx, k as int);
                        }
                        assert(st0.ran(&ctx0, self, *ctx, ctx, false, true));
                    }
                    return Ok(());
                },
                Ok(CumulativeOutcome::CannotSkip) => {},
                Err(conflict) => {
                    self.prop_check_failures = self.prop_check_failures.saturating_add(1);
                    self.prop_failures = self.prop_failures.saturating_add(1);
                    self.cache_valid = false;
                    self.var_updated = set_new();
                    proof {
                        lemma_between_self(&ctx0, ctx);
                        assert(st0.ran(&ctx0, self, *ctx, ctx, false, false));
                    }
                    return Err(conflict);
                },
            }
        }
        let ghost ctx1 = *ctx;
        self.prop_full = self.prop_full.saturating_add(1);
        let full: Result<(), Conflict> = self.full_propagate(ctx);
        proof {
            lemma_infers_join(&ctx0, &ctx1, ctx, rule, full);
        }
        match full {
            Err(conflict) => {
                self.prop_failures = self.prop_failures.saturating_add(1);
                self.cache_valid = false;
                self.var_updated = set_new();
                proof {
                    assert(st0.ran(&ctx0, self, ctx1, ctx, true, false));
                }
                Err(conflict)
            },
            Ok(()) => {
                self.snapshot_after_full(ctx);
                self.var_updated = set_new();
                proof {
                    assert(st0.ran(&ctx0, self, ctx1, ctx, true, true));
                }
                Ok(())
            },
        }
    }
}

/// The last domains are met on the way.
proof fn lemma_between_self(first: &SolvingContext, last: &SolvingContext)
    requires
        last.grows(first),
        last.narrows(first),
    ensures
        last.between(first, last),
{
    assert(last.propagation_queue@.take(last.propagation_queue.len() as int)
        =~= last.propagation_queue@);
}

/// An interval that was used up, and whose views take values of it, is closed to a view that it
/// did not hold.
proof fn lemma_kept_used_up(
    prop: &IntUniqueBoundsCumulativeSlack,
    i: int,
    l: int,
    u: int,
    ints: IntAssignment,
    bools: BoolAssignment,
)
    requires
        prop.tabled(),
        prop.cached_lb.len() == prop.vars().len(),
        0 <= l < u < prop.s_bounds.len(),
        cell(prop.slack@, prop.s_bounds.len() as int, l, u) <= 0,
        0 <= i < prop.vars().len(),
        !encloses(
            prop.cached_lb@,
            prop.cached_ub@,
            prop.s_bounds[l] as int,
            prop.s_bounds[u] as int,
            i,
        ),
        interval_kept(prop, i, l, u, prop.vars().len() as int, ints, bools),
        all_different(prop.vars())(ints, bools),
    ensures
        !(prop.s_bounds[l] <= prop.vars()[i].eval(ints, bools) < prop.s_bounds[u]),
{
    let (a, b) = (prop.s_bounds[l] as int, prop.s_bounds[u] as int);
    let members = lemma_members(
        prop.cached_lb@,
        prop.cached_ub@,
        a,
        b,
        prop.cached_lb.len() as int,
    );
    assert(members.len() >= b - a);
    assert forall|p: int| 0 <= p < members.len() implies 0 <= #[trigger] members[p]
        < prop.vars().len() && members[p] != i && a <= prop.vars()[members[p]].eval(ints, bools)
        < b by {
        let k = members[p];
        assert(a <= prop.vars()[k].eval(ints, bools) < b);
    }
    lemma_filled(prop.vars(), members, i, a, b, ints, bools);
}

/// A lower bound that was pushed follows from the views of the intervals and the bound that the
/// view had before.
pub proof fn lemma_pushed_lower_follows(
    prop: &IntUniqueBoundsCumulativeSlack,
    i: int,
    from: int,
    j: int,
    chain: Seq<(usize, usize)>,
    ints: IntAssignment,
    bools: BoolAssignment,
)
    requires
        prop.wf(),
        prop.cache_valid,
        prop.working_sound(),
        0 <= i < prop.vars().len(),
        climbs(prop.s_bounds@, prop.working@, from, j, chain),
        prop.cached_lb[i] < from,
        chain_kept(prop, i, chain, chain.len() as int, ints, bools),
        all_different(prop.vars())(ints, bools),
        from <= prop.vars()[i].eval(ints, bools),
    ensures
        climb_end(prop.s_bounds@, from, chain) <= prop.vars()[i].eval(ints, bools),
    decreases chain.len(),
{
    if chain.len() > 0 {
        let (l, u) = chain.last();
        let rest = chain.drop_last();
        assert(chain_kept(prop, i, rest, rest.len() as int, ints, bools)) by {
            assert forall|t: int| 0 <= t < rest.len() implies interval_kept(
                prop,
                i,
                (#[trigger] rest[t]).0 as int,
                rest[t].1 as int,
                prop.vars().len() as int,
                ints,
                bools,
            ) by {
                assert(rest[t] == chain[t]);
            }
        }
        lemma_pushed_lower_follows(prop, i, from, j, rest, ints, bools);
        lemma_climb_grows(prop.s_bounds@, prop.working@, from, j, rest);
        assert(cell(prop.working@, prop.s_bounds.len() as int, l as int, u as int) <= 0);
        assert(chain[chain.len() - 1] == (l, u));
        assert(interval_kept(
            prop,
            i,
            l as int,
            u as int,
            prop.vars().len() as int,
            ints,
            bools,
        ));
        lemma_kept_used_up(prop, i, l as int, u as int, ints, bools);
    }
}

/// An upper bound that was pushed follows from the views of the intervals and the bound that the
/// view had before.
pub proof fn lemma_pushed_upper_follows(
    prop: &IntUniqueBoundsCumulativeSlack,
    i: int,
    from: int,
    r: int,
    chain: Seq<(usize, usize)>,
    ints: IntAssignment,
    bools: BoolAssignment,
)
    requires
        prop.wf(),
        prop.cache_valid,
        prop.working_sound(),
        0 <= i < prop.vars().len(),
        sinks(prop.s_bounds@, prop.working@, from, r, chain),
        from < prop.cached_ub[i],
        chain_kept(prop, i, chain, chain.len() as int, ints, bools),
        all_different(prop.vars())(ints, bools),
        prop.vars()[i].eval(ints, bools) <= from,
    ensures
        prop.vars()[i].eval(ints, bools) <= sink_end(prop.s_bounds@, from, chain),
    decreases chain.len(),
{
    if chain.len() > 0 {
        let (l, u) = chain.last();
        let rest = chain.drop_last();
        assert(chain_kept(prop, i, rest, rest.len() as int, ints, bools)) by {
            assert forall|t: int| 0 <= t < rest.len() implies interval_kept(
                prop,
                i,
                (#[trigger] rest[t]).0 as int,
                rest[t].1 as int,
                prop.vars().len() as int,
                ints,
                bools,
            ) by {
                assert(rest[t] == chain[t]);
            }
        }
        lemma_pushed_upper_follows(prop, i, from, r, rest, ints, bools);
        lemma_sink_falls(prop.s_bounds@, prop.working@, from, r, rest);
        assert(cell(prop.working@, prop.s_bounds.len() as int, l as int, u as int) <= 0);
        assert(chain[chain.len() - 1] == (l, u));
        assert(interval_kept(
            prop,
            i,
            l as int,
            u as int,
            prop.vars().len() as int,
            ints,
            bools,
        ));
        lemma_kept_used_up(prop, i, l as int, u as int, ints, bools);
    }
}

} // verus!
