//! Lists of values in increasing order.

use vstd::prelude::*;

use crate::solver::view::IntVal;

verus! {

/// Whether the values increase.
pub open spec fn ascending(s: Seq<IntVal>) -> bool {
    forall|i: int, j: int| 0 <= i < j < s.len() ==> #[trigger] s[i] < #[trigger] s[j]
}

/// Add a value to an increasing list, unless it has it.
pub fn insert_value(s: &mut Vec<IntVal>, v: IntVal)
    requires
        ascending(old(s)@),
    ensures
        ascending(final(s)@),
        forall|w: IntVal| #[trigger] final(s)@.contains(w) <==> old(s)@.contains(w) || w == v,
        final(s).len() <= old(s).len() + 1,
{
    let ghost before = s@;
    let mut i: usize = 0;
    while i < s.len() && s[i] < v
        invariant
            i <= s.len(),
            s@ == before,
            forall|k: int| 0 <= k < i ==> #[trigger] s@[k] < v,
        decreases s.len() - i,
    {
        i = i + 1;
    }
    if i < s.len() && s[i] == v {
        proof {
            assert(s@[i as int] == v);
        }
        return ;
    }
    s.insert(i, v);
    proof {
        assert(s@ == before.insert(i as int, v));
        assert forall|a: int, b: int| 0 <= a < b < s@.len() implies #[trigger] s@[a]
            < #[trigger] s@[b] by {
            let oa = if a < i {
                a
            } else {
                a - 1
            };
            let ob = if b < i {
                b
            } else {
                b - 1
            };
            if a != i {
                assert(s@[a] == before[oa]);
            }
            if b != i {
                assert(s@[b] == before[ob]);
            }
            if a == i {
                assert(before[i as int] > v);
                if ob > i {
                    assert(before[i as int] < before[ob]);
                }
            }
        }
        assert forall|w: IntVal| #[trigger] s@.contains(w) <==> before.contains(w) || w == v by {
            if s@.contains(w) {
                let k = s@.index_of(w);
                if k < i {
                    assert(before[k] == w);
                } else if k > i {
                    assert(before[k - 1] == w);
                }
            }
            if before.contains(w) {
                let k = before.index_of(w);
                if k < i {
                    assert(s@[k] == w);
                } else {
                    assert(s@[k + 1] == w);
                }
            }
            if w == v {
                assert(s@[i as int] == v);
            }
        }
    }
}

} // verus!
