//! Integer and text parts of the validation report: the time split of the journal window,
//! the parameter grid, the worst stress result, and the honesty checks of sizing and of
//! the report's provenance fields.

use vstd::prelude::*;

use crate::signals::str_eq;
use crate::sim::fees::{has_non_whitespace, is_whitespace, is_whitespace_char};
use crate::types::RcError;

verus! {

/// Cells kept from the training grid.
pub const R001_TOP_K: usize = 5;

/// Levels counted by the order-book imbalance cells: 1, 5, 10, 20.
pub open spec fn n_levels_at(i: int) -> u64 {
    if i == 0 { 1 } else if i == 1 { 5 } else if i == 2 { 10 } else { 20 }
}

/// Imbalance thresholds ×1e8: 0.1, 0.2, 0.3, 0.4.
pub open spec fn theta_at(i: int) -> i64 {
    if i == 0 { 10_000_000 } else if i == 1 { 20_000_000 } else if i == 2 { 30_000_000 } else { 40_000_000 }
}

/// Holding horizons in milliseconds: 500, 1000, 2000, 5000.
pub open spec fn horizon_at(i: int) -> i64 {
    if i == 0 { 500 } else if i == 1 { 1_000 } else if i == 2 { 2_000 } else { 5_000 }
}

/// The grid of cells `(n_levels, theta_e8, horizon_ms)`: levels outermost, then thresholds,
/// then horizons.
pub fn r001_grid() -> (r: Vec<(u64, i64, i64)>)
    ensures
        r@.len() == 64,
        forall|k: int| 0 <= k < 64 ==> #[trigger] r@[k] == (n_levels_at(k / 16), theta_at((k / 4) % 4), horizon_at(k % 4)),
{
    let levels: [u64; 4] = [1, 5, 10, 20];
    let thetas: [i64; 4] = [10_000_000, 20_000_000, 30_000_000, 40_000_000];
    let horizons: [i64; 4] = [500, 1_000, 2_000, 5_000];
    let mut cells: Vec<(u64, i64, i64)> = Vec::new();
    let mut a: usize = 0;
    while a < 4
        invariant
            a <= 4,
            levels@ == seq![1u64, 5, 10, 20],
            thetas@ == seq![10_000_000i64, 20_000_000, 30_000_000, 40_000_000],
            horizons@ == seq![500i64, 1_000, 2_000, 5_000],
            cells@.len() == 16 * a,
            forall|k: int| 0 <= k < 16 * a ==> #[trigger] cells@[k] == (n_levels_at(k / 16), theta_at((k / 4) % 4), horizon_at(k % 4)),
        decreases 4 - a,
    {
        let mut b: usize = 0;
        while b < 4
            invariant
                a < 4,
                b <= 4,
                levels@ == seq![1u64, 5, 10, 20],
                thetas@ == seq![10_000_000i64, 20_000_000, 30_000_000, 40_000_000],
                horizons@ == seq![500i64, 1_000, 2_000, 5_000],
                cells@.len() == 16 * a + 4 * b,
                forall|k: int| 0 <= k < 16 * a + 4 * b ==> #[trigger] cells@[k] == (n_levels_at(k / 16), theta_at((k / 4) % 4), horizon_at(k % 4)),
            decreases 4 - b,
        {
            let mut c: usize = 0;
            while c < 4
                invariant
                    a < 4,
                    b < 4,
                    c <= 4,
                    levels@ == seq![1u64, 5, 10, 20],
                    thetas@ == seq![10_000_000i64, 20_000_000, 30_000_000, 40_000_000],
                    horizons@ == seq![500i64, 1_000, 2_000, 5_000],
                    cells@.len() == 16 * a + 4 * b + c,
                    forall|k: int| 0 <= k < 16 * a + 4 * b + c ==> #[trigger] cells@[k] == (n_levels_at(k / 16), theta_at((k / 4) % 4), horizon_at(k % 4)),
                decreases 4 - c,
            {
                let ghost k: int = 16 * a + 4 * b + c;
                assert(k / 16 == a && (k / 4) % 4 == b && k % 4 == c) by (nonlinear_arith)
                    requires k == 16 * a + 4 * b + c, a < 4, b < 4, c < 4;
                cells.push((levels[a], thetas[b], horizons[c]));
                c = c + 1;
            }
            b = b + 1;
        }
        a = a + 1;
    }
    cells
}

/// An unsized run (the account's position limits not applied) measures unlimited turnover,
/// not the capacity of our sizes: it may not claim a positive capacity. A sized run may.
pub fn validate_sizing_honesty(sizing_applied: bool, capacity_notional_e8: i64) -> (r: Result<(), String>)
    ensures
        r is Err <==> (!sizing_applied && capacity_notional_e8 > 0),
{
    if !sizing_applied && capacity_notional_e8 > 0 {
        return Err("an unsized run may not claim capacity: capacity must be N/A (0) when sizing is not applied".to_owned());
    }
    Ok(())
}

/// Smallest of the values, 0 for none.
pub open spec fn min_or_zero(v: Seq<i64>) -> i64
    decreases v.len(),
{
    if v.len() == 0 {
        0
    } else if v.len() == 1 {
        v[0]
    } else {
        let m = min_or_zero(v.drop_last());
        if v.last() < m { v.last() } else { m }
    }
}

/// The worst net PnL of the stress runs (0 without stress runs).
pub fn min_stress_pnl(net_pnls_e8: &[i64]) -> (r: i64)
    ensures
        r == min_or_zero(net_pnls_e8@),
        net_pnls_e8@.len() > 0 ==> (forall|i: int| 0 <= i < net_pnls_e8@.len() ==> r <= #[trigger] net_pnls_e8@[i])
            && exists|i: int| 0 <= i < net_pnls_e8@.len() && r == net_pnls_e8@[i],
{
    let v = net_pnls_e8;
    if v.len() == 0 {
        return 0;
    }
    let mut m = v[0];
    let mut i: usize = 1;
    assert(v@.subrange(0, 1).drop_last().len() == 0);
    assert(min_or_zero(v@.subrange(0, 1)) == v@[0]);
    while i < v.len()
        invariant
            1 <= i <= v@.len(),
            m == min_or_zero(v@.subrange(0, i as int)),
            forall|j: int| 0 <= j < i ==> m <= #[trigger] v@[j],
            exists|j: int| 0 <= j < i && m == v@[j],
        decreases v@.len() - i,
    {
        let ghost pre = v@.subrange(0, i as int + 1);
        assert(pre.drop_last() =~= v@.subrange(0, i as int));
        if v[i] < m {
            m = v[i];
        }
        i = i + 1;
    }
    assert(v@.subrange(0, v@.len() as int) =~= v@);
    m
}

/// Smallest and largest of non-empty values.
pub open spec fn is_min_of(m: i64, v: Seq<i64>) -> bool {
    (forall|i: int| 0 <= i < v.len() ==> m <= #[trigger] v[i]) && exists|i: int| 0 <= i < v.len() && m == v[i]
}

pub open spec fn is_max_of(m: i64, v: Seq<i64>) -> bool {
    (forall|i: int| 0 <= i < v.len() ==> m >= #[trigger] v[i]) && exists|i: int| 0 <= i < v.len() && m == v[i]
}

/// Split of the journal window by wall clock: the first two thirds train, the last third
/// out of sample, as half-open ranges; the last point belongs to the out-of-sample range.
/// An empty journal, or a window of no length, is `CorruptInput`.
pub fn split_range(ts_wall_ms: &[i64]) -> (r: Result<((i64, i64), (i64, i64)), RcError>)
    ensures
        ts_wall_ms@.len() == 0 ==> (r matches Err(e) && e is CorruptInput),
        ts_wall_ms@.len() > 0 ==> exists|first: i64, last: i64| {
            &&& is_min_of(first, ts_wall_ms@)
            &&& is_max_of(last, ts_wall_ms@)
            &&& (last <= first ==> (r matches Err(e) && e is CorruptInput))
            &&& (last > first ==> r == Ok::<((i64, i64), (i64, i64)), RcError>((
                (first, (first + (last - first) * 2 / 3) as i64),
                ((first + (last - first) * 2 / 3) as i64, if last == i64::MAX { last } else { (last + 1) as i64 }),
            )))
        },
{
    let v = ts_wall_ms;
    if v.len() == 0 {
        return Err(RcError::CorruptInput("journal is empty".to_owned()));
    }
    let mut lo = v[0];
    let mut hi = v[0];
    let mut i: usize = 1;
    while i < v.len()
        invariant
            1 <= i <= v@.len(),
            forall|j: int| 0 <= j < i ==> lo <= #[trigger] v@[j] && v@[j] <= hi,
            exists|j: int| 0 <= j < i && lo == v@[j],
            exists|j: int| 0 <= j < i && hi == v@[j],
        decreases v@.len() - i,
    {
        if v[i] < lo {
            lo = v[i];
        }
        if v[i] > hi {
            hi = v[i];
        }
        i = i + 1;
    }
    assert(is_min_of(lo, v@) && is_max_of(hi, v@));
    if hi <= lo {
        return Err(RcError::CorruptInput("journal window has zero length".to_owned()));
    }
    let span: i128 = hi as i128 - lo as i128;
    assert((span * 2) / 3 <= span) by (nonlinear_arith) requires span > 0;
    let train_end = (lo as i128 + span * 2 / 3) as i64;
    let end = if hi == i64::MAX { hi } else { hi + 1 };
    Ok(((lo, train_end), (train_end, end)))
}

/// The text without its leading and trailing whitespace (`str::trim`).
pub open spec fn trimmed(s: Seq<char>) -> Seq<char>
    decreases s.len(),
{
    if s.len() > 0 && is_whitespace_char(s[0]) {
        trimmed(s.drop_first())
    } else if s.len() > 0 && is_whitespace_char(s.last()) {
        trimmed(s.drop_last())
    } else {
        s
    }
}

proof fn lemma_trimmed(s: Seq<char>, lo: int, hi: int)
    requires
        0 <= lo <= hi <= s.len(),
        forall|j: int| 0 <= j < lo ==> is_whitespace_char(#[trigger] s[j]),
        forall|j: int| hi <= j < s.len() ==> is_whitespace_char(#[trigger] s[j]),
        lo < hi ==> !is_whitespace_char(s[lo]) && !is_whitespace_char(s[hi - 1]),
    ensures
        trimmed(s) == s.subrange(lo, hi),
    decreases s.len(),
{
    if s.len() > 0 && is_whitespace_char(s[0]) {
        let d = s.drop_first();
        if lo > 0 {
            assert forall|j: int| 0 <= j < lo - 1 implies is_whitespace_char(#[trigger] d[j]) by {
                assert(d[j] == s[j + 1]);
            }
            assert forall|j: int| hi - 1 <= j < d.len() implies is_whitespace_char(#[trigger] d[j]) by {
                assert(d[j] == s[j + 1]);
            }
            if lo < hi {
                assert(d[lo - 1] == s[lo] && d[hi - 2] == s[hi - 1]);
            }
            lemma_trimmed(d, lo - 1, hi - 1);
            assert(d.subrange(lo - 1, hi - 1) =~= s.subrange(lo, hi));
        } else {
            assert(hi == 0);
            assert forall|j: int| 0 <= j < d.len() implies is_whitespace_char(#[trigger] d[j]) by {
                assert(d[j] == s[j + 1]);
            }
            lemma_trimmed(d, 0, 0);
            assert(d.subrange(0, 0) =~= s.subrange(0, 0));
        }
    } else if s.len() > 0 && is_whitespace_char(s.last()) {
        assert(s.last() == s[s.len() - 1]);
        assert(hi < s.len());
        let d = s.drop_last();
        assert forall|j: int| 0 <= j < lo implies is_whitespace_char(#[trigger] d[j]) by {
            assert(d[j] == s[j]);
        }
        assert forall|j: int| hi <= j < d.len() implies is_whitespace_char(#[trigger] d[j]) by {
            assert(d[j] == s[j]);
        }
        lemma_trimmed(d, lo, hi);
        assert(d.subrange(lo, hi) =~= s.subrange(lo, hi));
    } else if s.len() > 0 {
        assert(s.last() == s[s.len() - 1]);
        assert(lo == 0);
        assert(hi == s.len());
        assert(s.subrange(0, s.len() as int) =~= s);
    } else {
        assert(s.subrange(lo, hi) =~= s);
    }
}

/// `s` with its leading and trailing whitespace removed.
pub fn trim(s: &str) -> (r: &str)
    ensures
        r@ == trimmed(s@),
{
    let n = s.unicode_len();
    let mut lo: usize = 0;
    while lo < n && is_whitespace(s.get_char(lo))
        invariant
            lo <= n,
            n == s@.len(),
            forall|j: int| 0 <= j < lo ==> is_whitespace_char(#[trigger] s@[j]),
        decreases n - lo,
    {
        lo = lo + 1;
    }
    let mut hi: usize = n;
    while hi > lo && is_whitespace(s.get_char(hi - 1))
        invariant
            lo <= hi <= n,
            n == s@.len(),
            forall|j: int| hi <= j < n ==> is_whitespace_char(#[trigger] s@[j]),
        decreases hi - lo,
    {
        hi = hi - 1;
    }
    proof {
        if lo < hi {
            assert(!is_whitespace_char(s@[lo as int]));
        }
        lemma_trimmed(s@, lo as int, hi as int);
    }
    s.substring_char(lo, hi)
}

/// Ledger epoch whose trial records do not compare with the current pipeline.
pub const PRE_PIPELINE_CUTOFF: &'static str = "f7f4761";

/// Why the provenance of a report is refused: an empty gap reference, an empty ledger
/// cutoff, or a cutoff naming the pre-pipeline epoch (checked in this order).
pub open spec fn provenance_refusal(gap_ref: Seq<char>, ledger_cutoff: Seq<char>) -> Option<Seq<char>> {
    if !has_non_whitespace(gap_ref) {
        Some("gap_ref is empty: the report does not refer to a gap artifact"@)
    } else if !has_non_whitespace(ledger_cutoff) {
        Some("ledger_cutoff is empty: the trials-ledger epoch is not named"@)
    } else if trimmed(ledger_cutoff) == PRE_PIPELINE_CUTOFF@ {
        Some("ledger_cutoff=f7f4761: the pre-pipeline ledger epoch is not comparable with the current logic"@)
    } else {
        None
    }
}

/// The text checks of a report's provenance: it must name its gap artifact and a ledger
/// epoch, and the epoch may not be the pre-pipeline one. `Err` carries the reason.
pub fn validate_provenance(gap_ref: &str, ledger_cutoff: &str) -> (r: Result<(), String>)
    ensures
        r is Ok <==> provenance_refusal(gap_ref@, ledger_cutoff@) is None,
        r matches Err(m) ==> provenance_refusal(gap_ref@, ledger_cutoff@) == Some(m@),
{
    if !crate::sim::fees::is_non_blank(gap_ref) {
        return Err("gap_ref is empty: the report does not refer to a gap artifact".to_owned());
    }
    if !crate::sim::fees::is_non_blank(ledger_cutoff) {
        return Err("ledger_cutoff is empty: the trials-ledger epoch is not named".to_owned());
    }
    if str_eq(trim(ledger_cutoff), PRE_PIPELINE_CUTOFF) {
        return Err(
            "ledger_cutoff=f7f4761: the pre-pipeline ledger epoch is not comparable with the current logic".to_owned(),
        );
    }
    Ok(())
}

} // verus!
