//! Integer metrics: drawdown of an equity curve and the lower median of a series.

use vstd::prelude::*;

verus! {

/// A drop from `a` to `b`, saturated at `i64::MAX`.
pub open spec fn drop_sat(a: i64, b: i64) -> int {
    if a - b > i64::MAX { i64::MAX as int } else { a - b }
}

/// Maximal drawdown ×1e8 of an equity curve: the largest drop from an earlier (or the same)
/// point to a later one, saturated at `i64::MAX`; 0 when the curve never falls.
pub fn max_drawdown_e8(equity_e8: &[i64]) -> (r: i64)
    ensures
        r >= 0,
        forall|j: int, i: int| 0 <= j <= i < equity_e8@.len() ==> r >= drop_sat(#[trigger] equity_e8@[j], #[trigger] equity_e8@[i]),
        r == 0 || exists|j: int, i: int| 0 <= j <= i < equity_e8@.len() && r == drop_sat(equity_e8@[j], equity_e8@[i]),
{
    let e = equity_e8;
    let mut peak: i64 = i64::MIN;
    let mut max_dd: i64 = 0;
    let mut i: usize = 0;
    while i < e.len()
        invariant
            i <= e@.len(),
            max_dd >= 0,
            i == 0 ==> peak == i64::MIN,
            i > 0 ==> exists|j: int| 0 <= j < i && e@[j] == peak,
            forall|j: int| 0 <= j < i ==> e@[j] <= peak,
            forall|j: int, k: int| 0 <= j <= k < i ==> max_dd >= drop_sat(#[trigger] e@[j], #[trigger] e@[k]),
            max_dd == 0 || exists|j: int, k: int| 0 <= j <= k < i && max_dd == drop_sat(e@[j], e@[k]),
        decreases e@.len() - i,
    {
        let x = e[i];
        let ghost old_peak = peak;
        if x > peak {
            peak = x;
        }
        let wide: i128 = peak as i128 - x as i128;
        let dd: i64 = if wide > i64::MAX as i128 { i64::MAX } else { wide as i64 };
        proof {
            let pj = if x >= old_peak { i as int } else { choose|j: int| 0 <= j < i && e@[j] == old_peak };
            assert(0 <= pj <= i && e@[pj] == peak);
            assert(dd == drop_sat(e@[pj], e@[i as int]));
            assert forall|j: int, k: int| 0 <= j <= k < i + 1 implies (if dd > max_dd { dd } else { max_dd }) >= drop_sat(#[trigger] e@[j], #[trigger] e@[k]) by {
                if k == i as int {
                    assert(e@[j] <= peak);
                }
            }
        }
        if dd > max_dd {
            max_dd = dd;
        }
        i = i + 1;
    }
    max_dd
}

/// Order of integers, for sorting.
pub open spec fn i64_leq() -> spec_fn(i64, i64) -> bool {
    |a: i64, b: i64| a <= b
}

proof fn lemma_i64_leq_total()
    ensures
        vstd::relations::total_ordering(i64_leq()),
{
    let leq = i64_leq();
    assert(vstd::relations::reflexive(leq));
    assert(vstd::relations::antisymmetric(leq));
    assert(vstd::relations::transitive(leq));
    assert(vstd::relations::strongly_connected(leq));
}

/// The values in ascending order: the same values, each as often.
fn sort_ascending(v: &Vec<i64>) -> (r: Vec<i64>)
    ensures
        vstd::relations::sorted_by(r@, i64_leq()),
        r@.to_multiset() == v@.to_multiset(),
{
    broadcast use vstd::seq_lib::to_multiset_build, vstd::seq_lib::to_multiset_insert;
    let mut out: Vec<i64> = Vec::new();
    let mut i: usize = 0;
    assert(v@.subrange(0, 0) =~= Seq::<i64>::empty());
    while i < v.len()
        invariant
            i <= v@.len(),
            vstd::relations::sorted_by(out@, i64_leq()),
            out@.to_multiset() == v@.subrange(0, i as int).to_multiset(),
        decreases v@.len() - i,
    {
        let x = v[i];
        let mut p: usize = 0;
        while p < out.len() && out[p] <= x
            invariant
                p <= out@.len(),
                forall|q: int| 0 <= q < p ==> out@[q] <= x,
            decreases out@.len() - p,
        {
            p = p + 1;
        }
        let ghost before = out@;
        out.insert(p, x);
        proof {
            assert(v@.subrange(0, i as int + 1) =~= v@.subrange(0, i as int).push(x));
            vstd::seq_lib::to_multiset_build(v@.subrange(0, i as int), x);
            vstd::seq_lib::to_multiset_insert(before, p as int, x);
            let s = out@;
            assert forall|a: int, b: int| 0 <= a < b < s.len() implies #[trigger] (i64_leq())(s[a], s[b]) by {
                if b < p as int {
                    assert((i64_leq())(before[a], before[b]));
                } else if b == p as int {
                    assert(before[a] <= x);
                } else if a < p as int {
                    assert(s[b] == before[b - 1]);
                    assert((i64_leq())(before[a], before[b - 1]));
                } else if a == p as int {
                    assert(s[b] == before[b - 1]);
                    assert(before[p as int] > x);
                    if b - 1 > p as int {
                        assert((i64_leq())(before[p as int], before[b - 1]));
                    }
                } else {
                    assert(s[a] == before[a - 1] && s[b] == before[b - 1]);
                    assert((i64_leq())(before[a - 1], before[b - 1]));
                }
            }
        }
        i = i + 1;
    }
    assert(v@.subrange(0, v@.len() as int) =~= v@);
    out
}

/// Lower median of the values: the element at index `(n − 1) / 2` of the values in
/// ascending order (the middle one for an odd count, the lower of the two middle ones for an
/// even count); `None` for no values.
pub fn lower_median(values: &Vec<i64>) -> (r: Option<i64>)
    ensures
        values@.len() == 0 ==> r is None,
        values@.len() > 0 ==> r == Some(values@.sort_by(i64_leq())[(values@.len() - 1) / 2]),
{
    if values.len() == 0 {
        return None;
    }
    let sorted = sort_ascending(values);
    proof {
        lemma_i64_leq_total();
        values@.lemma_sort_by_ensures(i64_leq());
        vstd::seq_lib::lemma_sorted_unique(sorted@, values@.sort_by(i64_leq()), i64_leq());
        vstd::seq_lib::to_multiset_len(sorted@);
        vstd::seq_lib::to_multiset_len(values@);
    }
    Some(sorted[(values.len() - 1) / 2])
}

} // verus!
