//! Funding accrual: a pure reducer over journalled funding events and the open position at
//! the moment of accrual.

use vstd::prelude::*;

use crate::bucket::trunc_div;
use crate::market::PRICE_SCALE;

verus! {

/// Notional of a signed position at the mark price, ×1e8 USD (Rust division).
pub open spec fn funding_notional_e8(position_qty_e8: int, mark_price_e8: int) -> int {
    trunc_div(position_qty_e8 * mark_price_e8, PRICE_SCALE as int)
}

/// Funding payment ×1e8 USD: a long pays at a positive rate (perpetual convention), so the
/// PnL is minus notional times rate.
pub open spec fn funding_pnl(position_qty_e8: int, mark_price_e8: int, rate_e8: int) -> int {
    -trunc_div(funding_notional_e8(position_qty_e8, mark_price_e8) * rate_e8, PRICE_SCALE as int)
}

/// A truncated quotient by the price scale of size at most 2^63 comes from a dividend whose
/// size is below `(2^63 + 1) · 1e8`.
proof fn lemma_dividend_bound(x: int)
    requires
        -0x8000_0000_0000_0000int <= trunc_div(x, PRICE_SCALE as int) <= 0x8000_0000_0000_0000int,
    ensures
        -(0x8000_0000_0000_0001int * PRICE_SCALE as int) < x < 0x8000_0000_0000_0001int * PRICE_SCALE as int,
{
    let d: int = PRICE_SCALE as int;
    if x >= 0 {
        assert(x < (x / d + 1) * d) by (nonlinear_arith)
            requires x >= 0, d == 100_000_000;
        assert((x / d + 1) * d <= 0x8000_0000_0000_0001int * d) by (nonlinear_arith)
            requires x / d <= 0x8000_0000_0000_0000int, d == 100_000_000;
    } else {
        assert(-x < ((-x) / d + 1) * d) by (nonlinear_arith)
            requires -x > 0, d == 100_000_000;
        assert(((-x) / d + 1) * d <= 0x8000_0000_0000_0001int * d) by (nonlinear_arith)
            requires (-x) / d <= 0x8000_0000_0000_0000int, d == 100_000_000;
    }
}

/// The sign of a truncated quotient by the price scale follows its dividend's.
proof fn lemma_trunc_div_sign(x: int)
    ensures
        x >= 0 ==> trunc_div(x, PRICE_SCALE as int) >= 0,
        x <= 0 ==> trunc_div(x, PRICE_SCALE as int) <= 0,
        x == 0 ==> trunc_div(x, PRICE_SCALE as int) == 0,
{
}

/// PnL delta of one funding accrual, ×1e8 USD: for this funding event only. A long pays at a
/// positive rate and receives at a negative one, a short the other way round; no position
/// or no rate accrues nothing.
pub fn funding_pnl_e8(position_qty_e8: i64, mark_price_e8: i64, rate_e8: i64) -> (r: i64)
    requires
        i64::MIN <= funding_pnl(position_qty_e8 as int, mark_price_e8 as int, rate_e8 as int) <= i64::MAX,
    ensures
        r == funding_pnl(position_qty_e8 as int, mark_price_e8 as int, rate_e8 as int),
        mark_price_e8 > 0 && position_qty_e8 > 0 && rate_e8 > 0 ==> r <= 0,
        mark_price_e8 > 0 && position_qty_e8 < 0 && rate_e8 > 0 ==> r >= 0,
        mark_price_e8 > 0 && position_qty_e8 > 0 && rate_e8 < 0 ==> r >= 0,
        mark_price_e8 > 0 && position_qty_e8 < 0 && rate_e8 < 0 ==> r <= 0,
        position_qty_e8 == 0 || rate_e8 == 0 ==> r == 0,
{
    let ghost q = position_qty_e8 as int;
    let ghost p = mark_price_e8 as int;
    let ghost k = rate_e8 as int;
    let scale = PRICE_SCALE as i128;
    assert(i64::MIN * i64::MAX <= q * p <= i64::MIN * i64::MIN) by (nonlinear_arith)
        requires i64::MIN <= q <= i64::MAX, i64::MIN <= p <= i64::MAX;
    let prod = position_qty_e8 as i128 * mark_price_e8 as i128;
    let notional: i128 = prod / scale;
    let ghost n = funding_notional_e8(q, p);
    assert(notional == n);
    proof {
        lemma_dividend_bound(n * k);
    }
    let accrual: i128 = notional * rate_e8 as i128;
    let paid: i128 = accrual / scale;
    proof {
        lemma_trunc_div_sign(q * p);
        lemma_trunc_div_sign(n * k);
        if p > 0 && q > 0 { assert(q * p > 0) by (nonlinear_arith) requires p > 0, q > 0; }
        if p > 0 && q < 0 { assert(q * p < 0) by (nonlinear_arith) requires p > 0, q < 0; }
        if q == 0 { assert(q * p == 0); }
        if n >= 0 && k > 0 { assert(n * k >= 0) by (nonlinear_arith) requires n >= 0, k > 0; }
        if n <= 0 && k > 0 { assert(n * k <= 0) by (nonlinear_arith) requires n <= 0, k > 0; }
        if n >= 0 && k < 0 { assert(n * k <= 0) by (nonlinear_arith) requires n >= 0, k < 0; }
        if n <= 0 && k < 0 { assert(n * k >= 0) by (nonlinear_arith) requires n <= 0, k < 0; }
        if n == 0 || k == 0 { assert(n * k == 0) by (nonlinear_arith) requires n == 0 || k == 0; }
    }
    (-paid) as i64
}

} // verus!
