use vstd::prelude::*;

verus! {

/// Rust's `/` on integers: the quotient rounded toward zero.
pub open spec fn trunc_div(a: int, b: int) -> int
    recommends
        b > 0,
{
    if a >= 0 {
        a / b
    } else {
        -((-a) / b)
    }
}

/// Start of the timeframe bucket of `ts_ms`, in whole seconds: the bucket index is the
/// floor of `ts_ms / timeframe_ms`; when the bucket start in milliseconds does not fit
/// in `i64` the start is 0.
pub open spec fn bucket_start_s(ts_ms: int, timeframe_ms: int) -> int {
    let start_ms = (ts_ms / timeframe_ms) * timeframe_ms;
    if i64::MIN <= start_ms <= i64::MAX {
        trunc_div(start_ms, 1000)
    } else {
        0
    }
}

proof fn lemma_floor_div_negative(a: int, b: int)
    requires
        a < 0,
        b > 0,
    ensures
        a / b == -((-a - 1) / b) - 1,
{
    let q = (-a - 1) / b;
    let r = (-a - 1) % b;
    assert(-a - 1 == q * b + r && 0 <= r < b) by (nonlinear_arith)
        requires b > 0, q == (-a - 1) / b, r == (-a - 1) % b;
    assert(a == (-q - 1) * b + (b - 1 - r)) by (nonlinear_arith)
        requires -a - 1 == q * b + r;
    vstd::arithmetic::div_mod::lemma_fundamental_div_mod_converse(a, b, -q - 1, b - 1 - r);
}

/// Start in whole seconds of the timeframe bucket that holds `ts_ms` (positive timeframe).
pub fn bucket_index_to_seconds(ts_ms: i64, timeframe_ms: i64) -> (r: i64)
    requires
        timeframe_ms > 0,
    ensures
        r == bucket_start_s(ts_ms as int, timeframe_ms as int),
{
    let idx: i64 = if ts_ms >= 0 {
        ts_ms / timeframe_ms
    } else {
        let k: i64 = (-(ts_ms + 1)) / timeframe_ms;
        proof {
            lemma_floor_div_negative(ts_ms as int, timeframe_ms as int);
        }
        -k - 1
    };
    match idx.checked_mul(timeframe_ms) {
        Some(ms) => ms / 1000,
        None => 0,
    }
}

} // verus!
