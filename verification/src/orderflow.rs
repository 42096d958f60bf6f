//! Trade-flow reducers (signed aggressor volume per timeframe bucket, its running total, and
//! the per-price footprint) and the faithfulness check of a trade stream against the book
//! deltas that should follow each trade.

use std::collections::HashMap;
use vstd::prelude::*;

use crate::bucket::{bucket_index_to_seconds, bucket_start_s};
use crate::market::{Level, Side};

verus! {

/// A trade `(ts_ms, aggressor side, size)`.
pub type SideTrade = (i64, Side, i64);

/// Size signed by the aggressor: buys count up, sells count down.
pub open spec fn signed_size(side: Side, size: i64) -> int {
    match side {
        Side::Buy => size as int,
        Side::Sell => -(size as int),
    }
}

pub open spec fn side_trade_bucket(t: SideTrade, tf: int) -> int {
    bucket_start_s(t.0 as int, tf)
}

/// Some trade falls in bucket `k`.
pub open spec fn has_side_trade_in(trades: Seq<SideTrade>, tf: int, k: int) -> bool {
    exists|i: int| 0 <= i < trades.len() && side_trade_bucket(trades[i], tf) == k
}

/// Signed aggressor volume of bucket `k`: Σ buy sizes − Σ sell sizes.
pub open spec fn bucket_delta(trades: Seq<SideTrade>, tf: int, k: int) -> int
    decreases trades.len(),
{
    if trades.len() == 0 {
        0
    } else {
        bucket_delta(trades.drop_last(), tf, k) + (if side_trade_bucket(trades.last(), tf) == k {
            signed_size(trades.last().1, trades.last().2)
        } else {
            0
        })
    }
}

/// Every running per-bucket signed sum fits in `i64`.
pub open spec fn deltas_fit(trades: Seq<SideTrade>, tf: int) -> bool {
    forall|i: int, k: int|
        0 <= i <= trades.len() ==> i64::MIN <= #[trigger] bucket_delta(trades.subrange(0, i), tf, k)
            <= i64::MAX
}

proof fn lemma_delta_zero(trades: Seq<SideTrade>, tf: int, k: int)
    requires
        !has_side_trade_in(trades, tf, k),
    ensures
        bucket_delta(trades, tf, k) == 0,
    decreases trades.len(),
{
    if trades.len() > 0 {
        assert(!has_side_trade_in(trades.drop_last(), tf, k)) by {
            if has_side_trade_in(trades.drop_last(), tf, k) {
                let i = choose|i: int|
                    0 <= i < trades.drop_last().len() && side_trade_bucket(
                        trades.drop_last()[i],
                        tf,
                    ) == k;
                assert(trades[i] == trades.drop_last()[i]);
            }
        }
        lemma_delta_zero(trades.drop_last(), tf, k);
        assert(side_trade_bucket(trades[trades.len() - 1], tf) != k);
    }
}

/// `r` is the footprint-delta series of `trades` per `tf` bucket: ascending buckets, one
/// per bucket holding a trade, each with the bucket's signed aggressor volume.
pub open spec fn deltas_ok(r: Seq<(i64, i64)>, trades: Seq<SideTrade>, tf: int) -> bool {
    &&& forall|a: int, b: int| 0 <= a < b < r.len() ==> r[a].0 < r[b].0
    &&& forall|j: int|
        0 <= j < r.len() ==> {
            &&& has_side_trade_in(trades, tf, (#[trigger] r[j]).0 as int)
            &&& r[j].1 == bucket_delta(trades, tf, r[j].0 as int)
        }
    &&& forall|i: int|
        0 <= i < trades.len() ==> exists|j: int|
            0 <= j < r.len() && r[j].0 == side_trade_bucket(#[trigger] trades[i], tf)
}

/// Per-bucket signed aggressor volume, in ascending bucket order, one entry per bucket that
/// holds a trade; `timeframe_ms ≤ 0` gives nothing.
pub fn footprint_delta(trades: &Vec<SideTrade>, timeframe_ms: i64) -> (r: Vec<(i64, i64)>)
    requires
        timeframe_ms > 0 ==> deltas_fit(trades@, timeframe_ms as int),
    ensures
        timeframe_ms <= 0 ==> r@.len() == 0,
        timeframe_ms > 0 ==> deltas_ok(r@, trades@, timeframe_ms as int),
{
    if timeframe_ms <= 0 {
        return Vec::new();
    }
    let ghost tf = timeframe_ms as int;
    let mut out: Vec<(i64, i64)> = Vec::new();
    let mut i: usize = 0;
    while i < trades.len()
        invariant
            i <= trades@.len(),
            timeframe_ms > 0,
            tf == timeframe_ms as int,
            deltas_fit(trades@, tf),
            forall|a: int, b: int| 0 <= a < b < out@.len() ==> out@[a].0 < out@[b].0,
            forall|j: int|
                0 <= j < out@.len() ==> {
                    &&& has_side_trade_in(
                        trades@.subrange(0, i as int),
                        tf,
                        (#[trigger] out@[j]).0 as int,
                    )
                    &&& out@[j].1 == bucket_delta(trades@.subrange(0, i as int), tf, out@[j].0 as int)
                },
            forall|k: int|
                has_side_trade_in(trades@.subrange(0, i as int), tf, k) ==> exists|j: int|
                    0 <= j < out@.len() && out@[j].0 == k,
            forall|w: int|
                0 <= w < i ==> exists|j: int|
                    0 <= j < out@.len() && out@[j].0 == side_trade_bucket(#[trigger] trades@[w], tf),
        decreases trades@.len() - i,
    {
        let (ts, side, size) = trades[i];
        let k = bucket_index_to_seconds(ts, timeframe_ms);
        let ghost pre = trades@.subrange(0, i as int);
        let ghost post = trades@.subrange(0, i + 1);
        proof {
            assert(post.drop_last() =~= pre);
            assert(post.last() == trades@[i as int]);
            assert(i64::MIN <= bucket_delta(post, tf, k as int) <= i64::MAX);
        }
        let mut p: usize = 0;
        while p < out.len() && out[p].0 < k
            invariant
                p <= out@.len(),
                forall|q: int| 0 <= q < p ==> out@[q].0 < k,
            decreases out@.len() - p,
        {
            p = p + 1;
        }
        let ghost old_o = out@;
        if p < out.len() && out[p].0 == k {
            let v = out[p].1;
            let nv = match side {
                Side::Buy => v + size,
                Side::Sell => v - size,
            };
            out.set(p, (k, nv));
            proof {
                assert forall|j: int| 0 <= j < out@.len() implies {
                    &&& has_side_trade_in(post, tf, (#[trigger] out@[j]).0 as int)
                    &&& out@[j].1 == bucket_delta(post, tf, out@[j].0 as int)
                } by {
                    if j != p {
                        assert(out@[j] == old_o[j]);
                        assert(old_o[j].0 != k);
                        let w = choose|w: int|
                            0 <= w < pre.len() && side_trade_bucket(pre[w], tf) == old_o[j].0;
                        assert(post[w] == pre[w]);
                    } else {
                        assert(post[i as int] == trades@[i as int]);
                    }
                }
                assert forall|kq: int| has_side_trade_in(post, tf, kq) implies exists|j: int|
                    0 <= j < out@.len() && out@[j].0 == kq by {
                    let w = choose|w: int|
                        0 <= w < post.len() && side_trade_bucket(post[w], tf) == kq;
                    if w < i {
                        assert(pre[w] == post[w]);
                        assert(has_side_trade_in(pre, tf, kq));
                        let j = choose|j: int| 0 <= j < old_o.len() && old_o[j].0 == kq;
                        assert(out@[j].0 == old_o[j].0);
                    } else {
                        assert(out@[p as int].0 == kq);
                    }
                }
                assert forall|a: int, b: int| 0 <= a < b < out@.len() implies out@[a].0
                    < out@[b].0 by {
                    assert(out@[a].0 == old_o[a].0);
                    assert(out@[b].0 == old_o[b].0);
                }
                assert forall|w: int| 0 <= w < i + 1 implies exists|j: int|
                    0 <= j < out@.len() && out@[j].0 == side_trade_bucket(
                        #[trigger] trades@[w],
                        tf,
                    ) by {
                    if w < i {
                        let j = choose|j: int|
                            0 <= j < old_o.len() && old_o[j].0 == side_trade_bucket(trades@[w], tf);
                        assert(out@[j].0 == old_o[j].0);
                    } else {
                        assert(out@[p as int].0 == side_trade_bucket(trades@[w], tf));
                    }
                }
            }
        } else {
            proof {
                assert(!has_side_trade_in(pre, tf, k as int)) by {
                    if has_side_trade_in(pre, tf, k as int) {
                        let j = choose|j: int| 0 <= j < old_o.len() && old_o[j].0 == k;
                        if j > p {
                            assert(old_o[p as int].0 < old_o[j].0);
                        }
                    }
                }
                lemma_delta_zero(pre, tf, k as int);
            }
            let nv = match side {
                Side::Buy => size,
                Side::Sell => 0 - size,
            };
            out.insert(p, (k, nv));
            proof {
                assert forall|j: int| 0 <= j < out@.len() implies {
                    &&& has_side_trade_in(post, tf, (#[trigger] out@[j]).0 as int)
                    &&& out@[j].1 == bucket_delta(post, tf, out@[j].0 as int)
                } by {
                    if j != p {
                        let jj = if j < p {
                            j
                        } else {
                            j - 1
                        };
                        assert(out@[j] == old_o[jj]);
                        assert(old_o[jj].0 != k);
                        let w = choose|w: int|
                            0 <= w < pre.len() && side_trade_bucket(pre[w], tf) == old_o[jj].0;
                        assert(post[w] == pre[w]);
                    } else {
                        assert(post[i as int] == trades@[i as int]);
                    }
                }
                assert forall|kq: int| has_side_trade_in(post, tf, kq) implies exists|j: int|
                    0 <= j < out@.len() && out@[j].0 == kq by {
                    let w = choose|w: int|
                        0 <= w < post.len() && side_trade_bucket(post[w], tf) == kq;
                    if w < i {
                        assert(pre[w] == post[w]);
                        assert(has_side_trade_in(pre, tf, kq));
                        let j = choose|j: int| 0 <= j < old_o.len() && old_o[j].0 == kq;
                        if j < p {
                            assert(out@[j] == old_o[j]);
                        } else {
                            assert(out@[j + 1] == old_o[j]);
                        }
                    } else {
                        assert(out@[p as int].0 == kq);
                    }
                }
                assert forall|a: int, b: int| 0 <= a < b < out@.len() implies out@[a].0
                    < out@[b].0 by {
                    let a0 = if a < p {
                        a
                    } else {
                        a - 1
                    };
                    let b0 = if b < p {
                        b
                    } else {
                        b - 1
                    };
                    if a != p {
                        assert(out@[a] == old_o[a0]);
                    }
                    if b != p {
                        assert(out@[b] == old_o[b0]);
                    }
                }
                assert forall|w: int| 0 <= w < i + 1 implies exists|j: int|
                    0 <= j < out@.len() && out@[j].0 == side_trade_bucket(
                        #[trigger] trades@[w],
                        tf,
                    ) by {
                    if w < i {
                        let j = choose|j: int|
                            0 <= j < old_o.len() && old_o[j].0 == side_trade_bucket(trades@[w], tf);
                        if j < p {
                            assert(out@[j] == old_o[j]);
                        } else {
                            assert(out@[j + 1] == old_o[j]);
                        }
                    } else {
                        assert(out@[p as int].0 == side_trade_bucket(trades@[w], tf));
                    }
                }
            }
        }
        i = i + 1;
    }
    assert(trades@.subrange(0, trades@.len() as int) =~= trades@);
    proof {
        assert forall|j: int| 0 <= j < out@.len() implies {
            &&& has_side_trade_in(trades@, timeframe_ms as int, (#[trigger] out@[j]).0 as int)
            &&& out@[j].1 == bucket_delta(trades@, timeframe_ms as int, out@[j].0 as int)
        } by {
            assert(has_side_trade_in(trades@.subrange(0, trades@.len() as int), tf, out@[j].0 as int));
        }
    }
    out
}

// ── Cumulative delta ────────────────────────────────────────────────────────────────────

/// Running signed volume, one point per run of consecutive trades in the same bucket: the
/// point of a run carries the bucket and the signed volume of all trades up to the run's end.
pub open spec fn cum_series(trades: Seq<SideTrade>, tf: int) -> Seq<(int, int)>
    decreases trades.len(),
{
    if trades.len() == 0 {
        Seq::empty()
    } else {
        let prev = cum_series(trades.drop_last(), tf);
        let t = trades.last();
        let k = side_trade_bucket(t, tf);
        if prev.len() > 0 && prev.last().0 == k {
            prev.update(prev.len() - 1, (k, prev.last().1 + signed_size(t.1, t.2)))
        } else {
            prev.push((k, (if prev.len() > 0 { prev.last().1 } else { 0 }) + signed_size(t.1, t.2)))
        }
    }
}

/// The reducer's running state: the total of finished runs, the signed volume of the
/// current run and whether a run is open.
pub open spec fn cum_state(trades: Seq<SideTrade>, tf: int) -> (int, int, bool)
    decreases trades.len(),
{
    if trades.len() == 0 {
        (0, 0, false)
    } else {
        let (closed, cur, open) = cum_state(trades.drop_last(), tf);
        let t = trades.last();
        let prev_k = side_trade_bucket(trades.drop_last().last(), tf);
        if open && prev_k == side_trade_bucket(t, tf) {
            (closed, cur + signed_size(t.1, t.2), true)
        } else if open {
            (closed + cur, signed_size(t.1, t.2), true)
        } else {
            (closed, signed_size(t.1, t.2), true)
        }
    }
}

/// Every running total the reducer holds fits in `i64`, and no sell has size `i64::MIN`.
pub open spec fn cum_fits(trades: Seq<SideTrade>, tf: int) -> bool {
    &&& forall|i: int| 0 <= i < trades.len() ==> (#[trigger] trades[i]).2 != i64::MIN || trades[i].1 == Side::Buy
    &&& forall|i: int|
        0 <= i <= trades.len() ==> {
            let st = #[trigger] cum_state(trades.subrange(0, i), tf);
            &&& i64::MIN <= st.0 <= i64::MAX
            &&& i64::MIN <= st.1 <= i64::MAX
            &&& i64::MIN <= st.0 + st.1 <= i64::MAX
        }
}

proof fn lemma_cum_state_series(trades: Seq<SideTrade>, tf: int)
    ensures
        cum_state(trades, tf).2 == (trades.len() > 0),
        trades.len() > 0 ==> {
            &&& cum_series(trades, tf).len() > 0
            &&& cum_series(trades, tf).last().0 == side_trade_bucket(trades.last(), tf)
            &&& cum_series(trades, tf).last().1 == cum_state(trades, tf).0 + cum_state(trades, tf).1
            &&& cum_series(trades, tf).len() >= 2 ==> cum_series(trades, tf)[cum_series(
                trades,
                tf,
            ).len() - 2].1 == cum_state(trades, tf).0
            &&& cum_series(trades, tf).len() == 1 ==> cum_state(trades, tf).0 == 0
        },
    decreases trades.len(),
{
    if trades.len() > 0 {
        let d = trades.drop_last();
        lemma_cum_state_series(d, tf);
        let prev = cum_series(d, tf);
        let t = trades.last();
        let k = side_trade_bucket(t, tf);
        let cs = cum_series(trades, tf);
        if prev.len() > 0 && prev.last().0 == k {
            assert(cs.len() == prev.len());
            if cs.len() >= 2 {
                assert(cs[cs.len() - 2] == prev[prev.len() - 2]);
            }
        } else {
            assert(cs.len() == prev.len() + 1);
            if cs.len() >= 2 {
                assert(cs[cs.len() - 2] == prev.last());
            }
        }
    }
}

/// `r` is the running delta series of `trades` (`cum_series`).
pub open spec fn cum_ok(r: Seq<(i64, i64)>, trades: Seq<SideTrade>, tf: int) -> bool {
    &&& r.len() == cum_series(trades, tf).len()
    &&& forall|j: int| 0 <= j < r.len() ==> (#[trigger] r[j]).0 == cum_series(trades, tf)[j].0
        && r[j].1 == cum_series(trades, tf)[j].1
}

/// Running signed aggressor volume at the end of each run of consecutive trades in the same
/// bucket (`cum_series`); `timeframe_ms ≤ 0` gives nothing.
pub fn cumulative_delta(trades: &Vec<SideTrade>, timeframe_ms: i64) -> (r: Vec<(i64, i64)>)
    requires
        timeframe_ms > 0 ==> cum_fits(trades@, timeframe_ms as int),
    ensures
        timeframe_ms <= 0 ==> r@.len() == 0,
        timeframe_ms > 0 ==> cum_ok(r@, trades@, timeframe_ms as int),
{
    if timeframe_ms <= 0 {
        return Vec::new();
    }
    let ghost tf = timeframe_ms as int;
    let mut cum: i64 = 0;
    let mut out: Vec<(i64, i64)> = Vec::new();
    let mut current_bucket: Option<i64> = None;
    let mut current_delta: i64 = 0;
    let mut i: usize = 0;
    while i < trades.len()
        invariant
            i <= trades@.len(),
            timeframe_ms > 0,
            tf == timeframe_ms as int,
            cum_fits(trades@, tf),
            cum == cum_state(trades@.subrange(0, i as int), tf).0,
            current_delta == cum_state(trades@.subrange(0, i as int), tf).1,
            current_bucket is Some == (i > 0),
            i > 0 ==> current_bucket == Some(
                side_trade_bucket(trades@[i - 1], tf) as i64,
            ),
            i > 0 ==> out@.len() + 1 == cum_series(trades@.subrange(0, i as int), tf).len(),
            i == 0 ==> out@.len() == 0,
            forall|j: int|
                0 <= j < out@.len() ==> (#[trigger] out@[j]).0 == cum_series(
                    trades@.subrange(0, i as int),
                    tf,
                )[j].0 && out@[j].1 == cum_series(trades@.subrange(0, i as int), tf)[j].1,
        decreases trades@.len() - i,
    {
        let (ts, side, size) = trades[i];
        let k = bucket_index_to_seconds(ts, timeframe_ms);
        let ghost pre = trades@.subrange(0, i as int);
        let ghost post = trades@.subrange(0, i + 1);
        proof {
            assert(post.drop_last() =~= pre);
            assert(post.last() == trades@[i as int]);
            if i > 0 {
                assert(pre.last() == trades@[i - 1]);
            }
            lemma_cum_state_series(pre, tf);
            lemma_cum_state_series(post, tf);
            let st = cum_state(post, tf);
            assert(i64::MIN <= st.0 <= i64::MAX && i64::MIN <= st.1 <= i64::MAX);
            assert(trades@[i as int].2 != i64::MIN || trades@[i as int].1 == Side::Buy);
            assert(i64::MIN <= cum_state(pre, tf).0 + cum_state(pre, tf).1 <= i64::MAX);
        }
        let s: i64 = match side {
            Side::Buy => size,
            Side::Sell => -size,
        };
        match current_bucket {
            Some(b) => {
                if b == k {
                    current_delta = current_delta + s;
                } else {
                    cum = cum + current_delta;
                    out.push((b, cum));
                    current_bucket = Some(k);
                    current_delta = s;
                }
            },
            None => {
                current_bucket = Some(k);
                current_delta = s;
            },
        }
        proof {
            let cs_pre = cum_series(pre, tf);
            let cs_post = cum_series(post, tf);
            assert forall|j: int| 0 <= j < out@.len() implies (#[trigger] out@[j]).0
                == cs_post[j].0 && out@[j].1 == cs_post[j].1 by {
                if j < cs_pre.len() - 1 {
                    assert(cs_post[j] == cs_pre[j]);
                }
            }
        }
        i = i + 1;
    }
    assert(trades@.subrange(0, trades@.len() as int) =~= trades@);
    match current_bucket {
        Some(b) => {
            proof {
                lemma_cum_state_series(trades@, tf);
            }
            cum = cum + current_delta;
            out.push((b, cum));
        },
        None => {},
    }
    out
}


/// Aggression has a sign: when every trade is a buy of positive size the cumulative delta
/// is positive and rises strictly from point to point; when every trade is a sell it is
/// negative and falls strictly.
pub proof fn law_one_sided_flow_is_monotone(trades: Seq<SideTrade>, tf: int, side: Side)
    requires
        forall|i: int| 0 <= i < trades.len() ==> (#[trigger] trades[i]).1 == side && trades[i].2 > 0,
    ensures
        forall|j: int| 0 <= j < cum_series(trades, tf).len() ==> {
            let v = #[trigger] cum_series(trades, tf)[j].1;
            &&& side == Side::Buy ==> v > 0
            &&& side == Side::Sell ==> v < 0
        },
        forall|a: int, b: int| 0 <= a < b < cum_series(trades, tf).len() ==> {
            let va = #[trigger] cum_series(trades, tf)[a].1;
            let vb = #[trigger] cum_series(trades, tf)[b].1;
            &&& side == Side::Buy ==> va < vb
            &&& side == Side::Sell ==> va > vb
        },
    decreases trades.len(),
{
    if trades.len() > 0 {
        let d = trades.drop_last();
        assert forall|i: int| 0 <= i < d.len() implies (#[trigger] d[i]).1 == side && d[i].2 > 0 by {
            assert(d[i] == trades[i]);
        }
        law_one_sided_flow_is_monotone(d, tf, side);
        let t = trades.last();
        assert(t == trades[trades.len() - 1]);
        let prev = cum_series(d, tf);
        let cs = cum_series(trades, tf);
        let k = side_trade_bucket(t, tf);
        if prev.len() > 0 && prev.last().0 == k {
            assert(cs.len() == prev.len());
            assert forall|j: int| 0 <= j < cs.len() - 1 implies #[trigger] cs[j] == prev[j] by {}
        } else {
            assert(cs.len() == prev.len() + 1);
            assert forall|j: int| 0 <= j < prev.len() implies #[trigger] cs[j] == prev[j] by {}
        }
    }
}

/// Trades whose time buckets never decrease along the sequence.
pub open spec fn buckets_nondecreasing(trades: Seq<SideTrade>, tf: int) -> bool {
    forall|a: int, b: int|
        0 <= a < b < trades.len() ==> side_trade_bucket(trades[a], tf) <= side_trade_bucket(
            trades[b],
            tf,
        )
}

/// For trades in time order, the cumulative delta is the running sum of the footprint delta:
/// one point per bucket that holds a trade, in ascending bucket order, each carrying the sum
/// of the per-bucket signed volumes (`bucket_delta`) of its own and all earlier buckets.
#[verifier::rlimit(80)]
#[verifier::spinoff_prover]
pub proof fn law_cumulative_is_running_footprint(trades: Seq<SideTrade>, tf: int)
    requires
        tf > 0,
        buckets_nondecreasing(trades, tf),
    ensures
        forall|a: int, b: int|
            0 <= a < b < cum_series(trades, tf).len() ==> cum_series(trades, tf)[a].0 < cum_series(
                trades,
                tf,
            )[b].0,
        forall|j: int|
            0 <= j < cum_series(trades, tf).len() ==> has_side_trade_in(
                trades,
                tf,
                (#[trigger] cum_series(trades, tf)[j]).0,
            ),
        forall|i: int|
            0 <= i < trades.len() ==> exists|j: int|
                0 <= j < cum_series(trades, tf).len() && cum_series(trades, tf)[j].0
                    == side_trade_bucket(#[trigger] trades[i], tf),
        cum_series(trades, tf).len() > 0 ==> cum_series(trades, tf)[0].1 == bucket_delta(
            trades,
            tf,
            cum_series(trades, tf)[0].0,
        ),
        forall|j: int|
            0 < j < cum_series(trades, tf).len() ==> (#[trigger] cum_series(trades, tf)[j]).1
                == cum_series(trades, tf)[j - 1].1 + bucket_delta(
                trades,
                tf,
                cum_series(trades, tf)[j].0,
            ),
    decreases trades.len(),
{
    if trades.len() > 0 {
        let d = trades.drop_last();
        assert(buckets_nondecreasing(d, tf)) by {
            assert forall|a: int, b: int| 0 <= a < b < d.len() implies side_trade_bucket(d[a], tf)
                <= side_trade_bucket(d[b], tf) by {
                assert(d[a] == trades[a] && d[b] == trades[b]);
            }
        }
        law_cumulative_is_running_footprint(d, tf);
        lemma_cum_state_series(d, tf);
        lemma_cum_state_series(trades, tf);
        let prev = cum_series(d, tf);
        let cs = cum_series(trades, tf);
        let t = trades.last();
        let k = side_trade_bucket(t, tf);
        let n = trades.len() - 1;
        assert(t == trades[n]);
        // earlier buckets are unaffected by the last trade
        assert forall|kk: int| kk != k implies bucket_delta(trades, tf, kk) == bucket_delta(
            d,
            tf,
            kk,
        ) by {}
        assert forall|j: int| 0 <= j < prev.len() implies prev[j].0 <= k by {
            let w = choose|w: int| 0 <= w < d.len() && side_trade_bucket(d[w], tf) == prev[j].0;
            assert(d[w] == trades[w]);
        }
        if prev.len() > 0 && prev.last().0 == k {
            assert(cs.len() == prev.len());
            assert forall|j: int| 0 <= j < cs.len() implies has_side_trade_in(
                trades,
                tf,
                (#[trigger] cs[j]).0,
            ) by {
                let w = choose|w: int| 0 <= w < d.len() && side_trade_bucket(d[w], tf) == prev[j].0;
                assert(d[w] == trades[w]);
            }
            assert forall|j: int| 0 < j < cs.len() implies (#[trigger] cs[j]).1 == cs[j - 1].1
                + bucket_delta(trades, tf, cs[j].0) by {
                if j < prev.len() - 1 {
                    assert(prev[j].0 < prev[prev.len() - 1].0);
                }
            }
            if prev.len() > 1 {
                assert(prev[0].0 < prev[prev.len() - 1].0);
            }
            assert forall|i: int| 0 <= i < trades.len() implies exists|j: int|
                0 <= j < cs.len() && cs[j].0 == side_trade_bucket(#[trigger] trades[i], tf) by {
                if i < n {
                    assert(d[i] == trades[i]);
                    let j = choose|j: int|
                        0 <= j < prev.len() && prev[j].0 == side_trade_bucket(d[i], tf);
                    assert(cs[j].0 == prev[j].0);
                } else {
                    assert(cs[cs.len() - 1].0 == k);
                }
            }
        } else {
            assert(cs.len() == prev.len() + 1);
            assert(!has_side_trade_in(d, tf, k)) by {
                if has_side_trade_in(d, tf, k) {
                    let w = choose|w: int| 0 <= w < d.len() && side_trade_bucket(d[w], tf) == k;
                    assert(d[w] == trades[w]);
                    assert(d.last() == trades[n - 1]);
                    assert(side_trade_bucket(trades[w], tf) <= side_trade_bucket(trades[n - 1], tf));
                    assert(side_trade_bucket(trades[n - 1], tf) <= k);
                }
            }
            lemma_delta_zero(d, tf, k);
            assert forall|j: int| 0 <= j < prev.len() implies prev[j].0 < k by {
                let w = choose|w: int| 0 <= w < d.len() && side_trade_bucket(d[w], tf) == prev[j].0;
                assert(d[w] == trades[w]);
                if prev[j].0 == k {
                    assert(has_side_trade_in(d, tf, k));
                }
            }
            assert forall|j: int| 0 <= j < cs.len() implies has_side_trade_in(
                trades,
                tf,
                (#[trigger] cs[j]).0,
            ) by {
                if j < prev.len() {
                    let w = choose|w: int|
                        0 <= w < d.len() && side_trade_bucket(d[w], tf) == prev[j].0;
                    assert(d[w] == trades[w]);
                } else {
                    assert(cs[j].0 == side_trade_bucket(trades[n], tf));
                }
            }
            assert forall|i: int| 0 <= i < trades.len() implies exists|j: int|
                0 <= j < cs.len() && cs[j].0 == side_trade_bucket(#[trigger] trades[i], tf) by {
                if i < n {
                    assert(d[i] == trades[i]);
                    let j = choose|j: int|
                        0 <= j < prev.len() && prev[j].0 == side_trade_bucket(d[i], tf);
                    assert(cs[j].0 == prev[j].0);
                } else {
                    assert(cs[cs.len() - 1].0 == k);
                }
            }
        }
    }
}

/// Sum of the signed volumes of the first `n` entries of a footprint-delta series.
pub open spec fn delta_total(r: Seq<(i64, i64)>, n: int) -> int
    decreases n,
{
    if n <= 0 {
        0
    } else {
        delta_total(r, n - 1) + r[n - 1].1
    }
}

/// Strictly ascending sequences that hold the same values are equal.
pub(crate) proof fn lemma_sorted_same_values(a: Seq<int>, b: Seq<int>)
    requires
        forall|i: int, j: int| 0 <= i < j < a.len() ==> a[i] < a[j],
        forall|i: int, j: int| 0 <= i < j < b.len() ==> b[i] < b[j],
        forall|i: int| 0 <= i < a.len() ==> b.contains(#[trigger] a[i]),
        forall|j: int| 0 <= j < b.len() ==> a.contains(#[trigger] b[j]),
    ensures
        a == b,
    decreases a.len(),
{
    if a.len() == 0 {
        if b.len() > 0 {
            assert(a.contains(b[0]));
        }
        assert(a =~= b);
    } else {
        assert(b.contains(a[0]));
        let k = choose|k: int| 0 <= k < b.len() && b[k] == a[0];
        assert(a.contains(b[0]));
        let l = choose|l: int| 0 <= l < a.len() && a[l] == b[0];
        assert(a[0] == b[0]) by {
            if k > 0 { assert(b[0] < b[k]); }
            if l > 0 { assert(a[0] < a[l]); }
        }
        let a1 = a.drop_first();
        let b1 = b.drop_first();
        assert forall|i: int| 0 <= i < a1.len() implies b1.contains(#[trigger] a1[i]) by {
            assert(a1[i] == a[i + 1]);
            assert(b.contains(a[i + 1]));
            let w = choose|w: int| 0 <= w < b.len() && b[w] == a[i + 1];
            assert(a[0] < a[i + 1]);
            assert(w != 0);
            assert(b1[w - 1] == b[w]);
        }
        assert forall|j: int| 0 <= j < b1.len() implies a1.contains(#[trigger] b1[j]) by {
            assert(b1[j] == b[j + 1]);
            assert(a.contains(b[j + 1]));
            let w = choose|w: int| 0 <= w < a.len() && a[w] == b[j + 1];
            assert(b[0] < b[j + 1]);
            assert(w != 0);
            assert(a1[w - 1] == a[w]);
        }
        lemma_sorted_same_values(a1, b1);
        assert forall|i: int| 0 <= i < a.len() implies a[i] == b[i] by {
            if i > 0 {
                assert(a[i] == a1[i - 1] && b[i] == b1[i - 1]);
            }
        }
        assert(a =~= b);
    }
}

proof fn lemma_running_values(fp: Seq<(i64, i64)>, cs: Seq<(int, int)>, trades: Seq<SideTrade>, tf: int, j: int)
    requires
        0 <= j < cs.len(),
        cs.len() == fp.len(),
        forall|i: int| 0 <= i < cs.len() ==> (#[trigger] cs[i]).0 == fp[i].0,
        forall|i: int| 0 <= i < fp.len() ==> (#[trigger] fp[i]).1 == bucket_delta(trades, tf, fp[i].0 as int),
        cs[0].1 == bucket_delta(trades, tf, cs[0].0),
        forall|i: int| 0 < i < cs.len() ==> (#[trigger] cs[i]).1 == cs[i - 1].1 + bucket_delta(trades, tf, cs[i].0),
    ensures
        cs[j].1 == delta_total(fp, j + 1),
    decreases j,
{
    assert(fp[j].1 == bucket_delta(trades, tf, cs[j].0));
    assert(delta_total(fp, j + 1) == delta_total(fp, j) + fp[j].1);
    if j == 0 {
        assert(delta_total(fp, 0) == 0);
    } else {
        lemma_running_values(fp, cs, trades, tf, j - 1);
    }
}

/// For trades in time order, whatever `footprint_delta` and `cumulative_delta` return on
/// the same trades and timeframe have the same buckets in the same order, and the `j`-th
/// cumulative value is the sum of the first `j + 1` footprint values: a running total that
/// is never reset per bucket.
pub proof fn law_cumulative_sums_footprint(trades: Seq<SideTrade>, tf: int, fp: Seq<(i64, i64)>, cum: Seq<(i64, i64)>)
    requires
        tf > 0,
        buckets_nondecreasing(trades, tf),
        deltas_ok(fp, trades, tf),
        cum_ok(cum, trades, tf),
    ensures
        cum.len() == fp.len(),
        forall|j: int| 0 <= j < cum.len() ==> (#[trigger] cum[j]).0 == fp[j].0,
        forall|j: int| 0 <= j < cum.len() ==> (#[trigger] cum[j]).1 == delta_total(fp, j + 1),
{
    law_cumulative_is_running_footprint(trades, tf);
    let cs = cum_series(trades, tf);
    let kc = cs.map_values(|p: (int, int)| p.0);
    let kf = fp.map_values(|p: (i64, i64)| p.0 as int);
    assert forall|i: int| 0 <= i < kc.len() implies kf.contains(#[trigger] kc[i]) by {
        assert(has_side_trade_in(trades, tf, cs[i].0));
        let w = choose|w: int| 0 <= w < trades.len() && side_trade_bucket(trades[w], tf) == cs[i].0;
        let j = choose|j: int| 0 <= j < fp.len() && fp[j].0 == side_trade_bucket(trades[w], tf);
        assert(kf[j] == kc[i]);
    }
    assert forall|j: int| 0 <= j < kf.len() implies kc.contains(#[trigger] kf[j]) by {
        assert(has_side_trade_in(trades, tf, fp[j].0 as int));
        let w = choose|w: int| 0 <= w < trades.len() && side_trade_bucket(trades[w], tf) == fp[j].0 as int;
        let i = choose|i: int| 0 <= i < cs.len() && cs[i].0 == side_trade_bucket(trades[w], tf);
        assert(kc[i] == kf[j]);
    }
    assert forall|i: int, j: int| 0 <= i < j < kc.len() implies kc[i] < kc[j] by {
        assert(cs[i].0 < cs[j].0);
    }
    assert forall|i: int, j: int| 0 <= i < j < kf.len() implies kf[i] < kf[j] by {
        assert(fp[i].0 < fp[j].0);
    }
    lemma_sorted_same_values(kc, kf);
    assert(kc.len() == kf.len());
    assert forall|i: int| 0 <= i < cs.len() implies (#[trigger] cs[i]).0 == fp[i].0 by {
        assert(kc[i] == kf[i]);
    }
    assert forall|i: int| 0 <= i < fp.len() implies (#[trigger] fp[i]).1 == bucket_delta(trades, tf, fp[i].0 as int) by {
        assert(has_side_trade_in(trades, tf, (fp[i]).0 as int));
    }
    assert forall|j: int| 0 <= j < cum.len() implies (#[trigger] cum[j]).1 == delta_total(fp, j + 1) by {
        lemma_running_values(fp, cs, trades, tf, j);
        assert(cum[j].1 == cs[j].1);
    }
    assert forall|j: int| 0 <= j < cum.len() implies (#[trigger] cum[j]).0 == fp[j].0 by {
        assert(cum[j].0 == cs[j].0);
    }
}

// ── Per-price footprint ─────────────────────────────────────────────────────────────────

/// A footprint bar: one bucket, with one bin per traded price, bins by ascending price.
#[derive(Clone, Debug, PartialEq, Eq)]
pub struct FootprintBar {
    /// Bucket start in seconds.
    pub time_s: i64,
    pub bins: Vec<PriceBin>,
}

/// Buy and sell aggressor volume at one price within a bucket.
#[derive(Clone, Copy, Debug, PartialEq, Eq)]
pub struct PriceBin {
    pub price: i64,
    pub buy_vol: i64,
    pub sell_vol: i64,
    /// `buy_vol − sell_vol`.
    pub delta: i64,
}

/// A trade `(ts_ms, price, aggressor side, size)`.
pub type PricedSideTrade = (i64, i64, Side, i64);

pub open spec fn priced_bucket(t: PricedSideTrade, tf: int) -> int {
    bucket_start_s(t.0 as int, tf)
}

/// Some trade falls in bucket `k` at price `p`.
pub open spec fn has_bin(trades: Seq<PricedSideTrade>, tf: int, k: int, p: int) -> bool {
    exists|i: int| 0 <= i < trades.len() && priced_bucket(trades[i], tf) == k && trades[i].1 == p
}

/// Buy volume at price `p` in bucket `k`.
pub open spec fn bin_buy(trades: Seq<PricedSideTrade>, tf: int, k: int, p: int) -> int
    decreases trades.len(),
{
    if trades.len() == 0 {
        0
    } else {
        let t = trades.last();
        bin_buy(trades.drop_last(), tf, k, p) + (if priced_bucket(t, tf) == k && t.1 == p && t.2
            == Side::Buy {
            t.3 as int
        } else {
            0
        })
    }
}

/// Sell volume at price `p` in bucket `k`.
pub open spec fn bin_sell(trades: Seq<PricedSideTrade>, tf: int, k: int, p: int) -> int
    decreases trades.len(),
{
    if trades.len() == 0 {
        0
    } else {
        let t = trades.last();
        bin_sell(trades.drop_last(), tf, k, p) + (if priced_bucket(t, tf) == k && t.1 == p && t.2
            == Side::Sell {
            t.3 as int
        } else {
            0
        })
    }
}

/// Every running buy and sell volume of a bin fits in `i64`, and so does each bin's final
/// buy − sell difference.
pub open spec fn bins_fit(trades: Seq<PricedSideTrade>, tf: int) -> bool {
    &&& forall|i: int, k: int, p: int|
        0 <= i <= trades.len() ==> i64::MIN <= #[trigger] bin_buy(trades.subrange(0, i), tf, k, p)
            <= i64::MAX
    &&& forall|i: int, k: int, p: int|
        0 <= i <= trades.len() ==> i64::MIN <= #[trigger] bin_sell(trades.subrange(0, i), tf, k, p)
            <= i64::MAX
    &&& forall|k: int, p: int|
        i64::MIN <= #[trigger] bin_buy(trades, tf, k, p) - bin_sell(trades, tf, k, p) <= i64::MAX
}

proof fn lemma_bin_zero(trades: Seq<PricedSideTrade>, tf: int, k: int, p: int)
    requires
        !has_bin(trades, tf, k, p),
    ensures
        bin_buy(trades, tf, k, p) == 0,
        bin_sell(trades, tf, k, p) == 0,
    decreases trades.len(),
{
    if trades.len() > 0 {
        assert(!has_bin(trades.drop_last(), tf, k, p)) by {
            if has_bin(trades.drop_last(), tf, k, p) {
                let i = choose|i: int|
                    0 <= i < trades.drop_last().len() && priced_bucket(trades.drop_last()[i], tf)
                        == k && trades.drop_last()[i].1 == p;
                assert(trades[i] == trades.drop_last()[i]);
            }
        }
        lemma_bin_zero(trades.drop_last(), tf, k, p);
        assert(!(priced_bucket(trades[trades.len() - 1], tf) == k && trades[trades.len() - 1].1
            == p));
    }
}

pub open spec fn key_lt(a: (i64, i64), b: (i64, i64)) -> bool {
    a.0 < b.0 || (a.0 == b.0 && a.1 < b.1)
}

/// (bucket, price, buy, sell)
type FlatBin = (i64, i64, i64, i64);

spec fn flat_ok(e: FlatBin, trades: Seq<PricedSideTrade>, tf: int) -> bool {
    &&& has_bin(trades, tf, e.0 as int, e.1 as int)
    &&& e.2 == bin_buy(trades, tf, e.0 as int, e.1 as int)
    &&& e.3 == bin_sell(trades, tf, e.0 as int, e.1 as int)
}

pub open spec fn bin_ok(b: PriceBin, k: int, trades: Seq<PricedSideTrade>, tf: int) -> bool {
    &&& has_bin(trades, tf, k, b.price as int)
    &&& b.buy_vol == bin_buy(trades, tf, k, b.price as int)
    &&& b.sell_vol == bin_sell(trades, tf, k, b.price as int)
    &&& b.delta == b.buy_vol - b.sell_vol
}

/// Sorted (bucket, price) bins of the trades with their buy and sell volumes.
#[verifier::rlimit(60)]
#[verifier::spinoff_prover]
fn flat_bins(trades: &Vec<PricedSideTrade>, timeframe_ms: i64) -> (out: Vec<FlatBin>)
    requires
        timeframe_ms > 0,
        bins_fit(trades@, timeframe_ms as int),
    ensures
        forall|a: int, b: int|
            0 <= a < b < out@.len() ==> key_lt((out@[a].0, out@[a].1), (out@[b].0, out@[b].1)),
        forall|j: int| 0 <= j < out@.len() ==> flat_ok(#[trigger] out@[j], trades@, timeframe_ms as int),
        forall|w: int|
            0 <= w < trades@.len() ==> exists|j: int|
                0 <= j < out@.len() && out@[j].0 == priced_bucket(
                    #[trigger] trades@[w],
                    timeframe_ms as int,
                ) && out@[j].1 == trades@[w].1,
{
    let ghost tf = timeframe_ms as int;
    let mut out: Vec<FlatBin> = Vec::new();
    let mut i: usize = 0;
    while i < trades.len()
        invariant
            i <= trades@.len(),
            timeframe_ms > 0,
            tf == timeframe_ms as int,
            bins_fit(trades@, tf),
            forall|a: int, b: int|
                0 <= a < b < out@.len() ==> key_lt((out@[a].0, out@[a].1), (out@[b].0, out@[b].1)),
            forall|j: int|
                0 <= j < out@.len() ==> flat_ok(#[trigger] out@[j], trades@.subrange(0, i as int), tf),
            forall|w: int|
                0 <= w < i ==> exists|j: int|
                    0 <= j < out@.len() && out@[j].0 == priced_bucket(#[trigger] trades@[w], tf)
                        && out@[j].1 == trades@[w].1,
        decreases trades@.len() - i,
    {
        let (ts, price, side, size) = trades[i];
        let k = bucket_index_to_seconds(ts, timeframe_ms);
        let ghost pre = trades@.subrange(0, i as int);
        let ghost post = trades@.subrange(0, i + 1);
        proof {
            assert(post.drop_last() =~= pre);
            assert(post.last() == trades@[i as int]);
            assert(i64::MIN <= bin_buy(post, tf, k as int, price as int) <= i64::MAX);
            assert(i64::MIN <= bin_sell(post, tf, k as int, price as int) <= i64::MAX);
        }
        let mut p: usize = 0;
        while p < out.len() && key_lt_exec((out[p].0, out[p].1), (k, price))
            invariant
                p <= out@.len(),
                forall|q: int| 0 <= q < p ==> key_lt((out@[q].0, out@[q].1), (k, price)),
            decreases out@.len() - p,
        {
            p = p + 1;
        }
        let ghost old_o = out@;
        if p < out.len() && out[p].0 == k && out[p].1 == price {
            let (kk, pp, b, s) = out[p];
            let e: FlatBin = match side {
                Side::Buy => (kk, pp, b + size, s),
                Side::Sell => (kk, pp, b, s + size),
            };
            out.set(p, e);
            proof {
                assert forall|j: int| 0 <= j < out@.len() implies flat_ok(
                    #[trigger] out@[j],
                    post,
                    tf,
                ) by {
                    if j != p {
                        assert(out@[j] == old_o[j]);
                        assert(flat_ok(old_o[j], pre, tf));
                        assert(!(old_o[j].0 == k && old_o[j].1 == price));
                        let w = choose|w: int|
                            0 <= w < pre.len() && priced_bucket(pre[w], tf) == old_o[j].0
                                && pre[w].1 == old_o[j].1;
                        assert(post[w] == pre[w]);
                    } else {
                        assert(flat_ok(old_o[j], pre, tf));
                        let w = choose|w: int|
                            0 <= w < pre.len() && priced_bucket(pre[w], tf) == old_o[j].0
                                && pre[w].1 == old_o[j].1;
                        assert(post[w] == pre[w]);
                    }
                }
                assert forall|a: int, b: int|
                    0 <= a < b < out@.len() implies key_lt(
                    (out@[a].0, out@[a].1),
                    (out@[b].0, out@[b].1),
                ) by {
                    assert(out@[a].0 == old_o[a].0 && out@[a].1 == old_o[a].1);
                    assert(out@[b].0 == old_o[b].0 && out@[b].1 == old_o[b].1);
                }
                assert forall|w: int| 0 <= w < i + 1 implies exists|j: int|
                    0 <= j < out@.len() && out@[j].0 == priced_bucket(#[trigger] trades@[w], tf)
                        && out@[j].1 == trades@[w].1 by {
                    if w < i {
                        let j = choose|j: int|
                            0 <= j < old_o.len() && old_o[j].0 == priced_bucket(trades@[w], tf)
                                && old_o[j].1 == trades@[w].1;
                        assert(out@[j].0 == old_o[j].0 && out@[j].1 == old_o[j].1);
                    } else {
                        assert(out@[p as int].0 == k && out@[p as int].1 == price);
                    }
                }
            }
        } else {
            proof {
                assert(!has_bin(pre, tf, k as int, price as int)) by {
                    if has_bin(pre, tf, k as int, price as int) {
                        let w = choose|w: int|
                            0 <= w < pre.len() && priced_bucket(pre[w], tf) == k && pre[w].1
                                == price;
                        assert(pre[w] == trades@[w]);
                        let j = choose|j: int|
                            0 <= j < old_o.len() && old_o[j].0 == priced_bucket(trades@[w], tf)
                                && old_o[j].1 == trades@[w].1;
                        if j > p {
                            assert(key_lt((old_o[p as int].0, old_o[p as int].1), (old_o[j].0, old_o[j].1)));
                        }
                    }
                }
                lemma_bin_zero(pre, tf, k as int, price as int);
                if p < old_o.len() {
                    assert(!key_lt((old_o[p as int].0, old_o[p as int].1), (k, price)));
                    assert(key_lt((k, price), (old_o[p as int].0, old_o[p as int].1)));
                }
            }
            let e: FlatBin = match side {
                Side::Buy => (k, price, size, 0),
                Side::Sell => (k, price, 0, size),
            };
            out.insert(p, e);
            proof {
                assert forall|j: int| 0 <= j < out@.len() implies flat_ok(
                    #[trigger] out@[j],
                    post,
                    tf,
                ) by {
                    if j != p {
                        let jj = if j < p {
                            j
                        } else {
                            j - 1
                        };
                        assert(out@[j] == old_o[jj]);
                        assert(flat_ok(old_o[jj], pre, tf));
                        assert(!(old_o[jj].0 == k && old_o[jj].1 == price));
                        let w = choose|w: int|
                            0 <= w < pre.len() && priced_bucket(pre[w], tf) == old_o[jj].0
                                && pre[w].1 == old_o[jj].1;
                        assert(post[w] == pre[w]);
                    } else {
                        assert(post[i as int] == trades@[i as int]);
                    }
                }
                assert forall|a: int, b: int|
                    0 <= a < b < out@.len() implies key_lt(
                    (out@[a].0, out@[a].1),
                    (out@[b].0, out@[b].1),
                ) by {
                    let a0 = if a < p {
                        a
                    } else {
                        a - 1
                    };
                    let b0 = if b < p {
                        b
                    } else {
                        b - 1
                    };
                    if a != p {
                        assert(out@[a] == old_o[a0]);
                    }
                    if b != p {
                        assert(out@[b] == old_o[b0]);
                    }
                    if a != p && b != p {
                        assert(key_lt((old_o[a0].0, old_o[a0].1), (old_o[b0].0, old_o[b0].1)));
                    } else if a == p && b0 > p {
                        assert(key_lt((old_o[p as int].0, old_o[p as int].1), (old_o[b0].0, old_o[b0].1)));
                    } else if b == p {
                        assert(key_lt((old_o[a0].0, old_o[a0].1), (k, price)));
                    }
                }
                assert forall|w: int| 0 <= w < i + 1 implies exists|j: int|
                    0 <= j < out@.len() && out@[j].0 == priced_bucket(#[trigger] trades@[w], tf)
                        && out@[j].1 == trades@[w].1 by {
                    if w < i {
                        let j = choose|j: int|
                            0 <= j < old_o.len() && old_o[j].0 == priced_bucket(trades@[w], tf)
                                && old_o[j].1 == trades@[w].1;
                        if j < p {
                            assert(out@[j] == old_o[j]);
                        } else {
                            assert(out@[j + 1] == old_o[j]);
                        }
                    } else {
                        assert(out@[p as int].0 == k && out@[p as int].1 == price);
                    }
                }
            }
        }
        i = i + 1;
    }
    assert(trades@.subrange(0, trades@.len() as int) =~= trades@);
    out
}

fn key_lt_exec(a: (i64, i64), b: (i64, i64)) -> (r: bool)
    ensures
        r == key_lt(a, b),
{
    a.0 < b.0 || (a.0 == b.0 && a.1 < b.1)
}

pub open spec fn bar_view_ok(time_s: i64, bins: Seq<PriceBin>, trades: Seq<PricedSideTrade>, tf: int) -> bool {
    &&& bins.len() > 0
    &&& forall|a: int, b: int| 0 <= a < b < bins.len() ==> bins[a].price < bins[b].price
    &&& forall|q: int| 0 <= q < bins.len() ==> bin_ok(#[trigger] bins[q], time_s as int, trades, tf)
}

pub open spec fn bar_ok(bar: FootprintBar, trades: Seq<PricedSideTrade>, tf: int) -> bool {
    bar_view_ok(bar.time_s, bar.bins@, trades, tf)
}

/// A bar as the contracts see it: its bucket and its bins.
pub open spec fn bars_view(r: Seq<FootprintBar>) -> Seq<(i64, Seq<PriceBin>)> {
    r.map_values(|b: FootprintBar| (b.time_s, b.bins@))
}

/// `v` is the footprint of `trades` per `tf` bucket: ascending buckets, each bar correct
/// (`bar_view_ok`), and every trade's price present in its bucket's bar.
pub open spec fn bins_ok(v: Seq<(i64, Seq<PriceBin>)>, trades: Seq<PricedSideTrade>, tf: int) -> bool {
    &&& forall|a: int, b: int| 0 <= a < b < v.len() ==> v[a].0 < v[b].0
    &&& forall|j: int| 0 <= j < v.len() ==> bar_view_ok((#[trigger] v[j]).0, v[j].1, trades, tf)
    &&& forall|w: int|
        0 <= w < trades.len() ==> exists|j: int, q: int|
            0 <= j < v.len() && 0 <= q < v[j].1.len() && v[j].0 == priced_bucket(#[trigger] trades[w], tf)
                && v[j].1[q].price == trades[w].1
}

/// Full footprint: per bucket (ascending), one bin per price traded in it (ascending), with
/// the bin's buy and sell volume and their difference; `timeframe_ms ≤ 0` gives nothing.
pub fn footprint_bins(trades: &Vec<PricedSideTrade>, timeframe_ms: i64) -> (r: Vec<FootprintBar>)
    requires
        timeframe_ms > 0 ==> bins_fit(trades@, timeframe_ms as int),
    ensures
        timeframe_ms <= 0 ==> r@.len() == 0,
        timeframe_ms > 0 ==> bins_ok(bars_view(r@), trades@, timeframe_ms as int),
{
    if timeframe_ms <= 0 {
        return Vec::new();
    }
    let ghost tf = timeframe_ms as int;
    let flat = flat_bins(trades, timeframe_ms);
    let mut bars: Vec<FootprintBar> = Vec::new();
    let mut cur: Vec<PriceBin> = Vec::new();
    let mut cur_key: i64 = 0;
    let mut m: usize = 0;
    while m < flat.len()
        invariant
            m <= flat@.len(),
            tf == timeframe_ms as int,
            forall|a: int, b: int|
                0 <= a < b < flat@.len() ==> key_lt((flat@[a].0, flat@[a].1), (flat@[b].0, flat@[b].1)),
            forall|j: int| 0 <= j < flat@.len() ==> flat_ok(#[trigger] flat@[j], trades@, tf),
            bins_fit(trades@, tf),
            m == 0 ==> cur@.len() == 0 && bars@.len() == 0,
            m > 0 ==> cur@.len() > 0 && cur_key == flat@[m - 1].0 && cur@.last().price
                == flat@[m - 1].1,
            forall|a: int, b: int|
                0 <= a < b < cur@.len() ==> cur@[a].price < cur@[b].price,
            forall|q: int| 0 <= q < cur@.len() ==> bin_ok(#[trigger] cur@[q], cur_key as int, trades@, tf),
            forall|a: int, b: int| 0 <= a < b < bars@.len() ==> bars@[a].time_s < bars@[b].time_s,
            m > 0 ==> forall|j: int| 0 <= j < bars@.len() ==> bars@[j].time_s < cur_key,
            forall|j: int| 0 <= j < bars@.len() ==> bar_ok(#[trigger] bars@[j], trades@, tf),
            forall|f: int|
                0 <= f < m ==> (exists|j: int, q: int|
                    0 <= j < bars@.len() && 0 <= q < bars@[j].bins@.len() && bars@[j].time_s
                        == (#[trigger] flat@[f]).0 && bars@[j].bins@[q].price == flat@[f].1) || (
                flat@[f].0 == cur_key && exists|q: int|
                    0 <= q < cur@.len() && cur@[q].price == flat@[f].1),
        decreases flat@.len() - m,
    {
        let (k, price, b, s) = flat[m];
        proof {
            assert(flat_ok(flat@[m as int], trades@, tf));
            assert(i64::MIN <= bin_buy(trades@, tf, k as int, price as int) - bin_sell(
                trades@,
                tf,
                k as int,
                price as int,
            ) <= i64::MAX);
        }
        let bin = PriceBin { price, buy_vol: b, sell_vol: s, delta: b - s };
        if m > 0 && k == cur_key {
            let ghost old_cur = cur@;
            proof {
                assert(key_lt((flat@[m - 1].0, flat@[m - 1].1), (flat@[m as int].0, flat@[m as int].1)));
            }
            cur.push(bin);
            proof {
                assert forall|q: int| 0 <= q < cur@.len() implies bin_ok(
                    #[trigger] cur@[q],
                    cur_key as int,
                    trades@,
                    tf,
                ) by {
                    if q < old_cur.len() {
                        assert(cur@[q] == old_cur[q]);
                    }
                }
                assert forall|a: int, bb: int| 0 <= a < bb < cur@.len() implies cur@[a].price
                    < cur@[bb].price by {
                    if bb < old_cur.len() {
                        assert(cur@[a] == old_cur[a]);
                        assert(cur@[bb] == old_cur[bb]);
                    } else {
                        assert(cur@[a] == old_cur[a]);
                        if a < old_cur.len() - 1 {
                            assert(old_cur[a].price < old_cur[old_cur.len() - 1].price);
                        }
                    }
                }
                assert forall|f: int| 0 <= f < m + 1 implies (exists|j: int, q: int|
                    0 <= j < bars@.len() && 0 <= q < bars@[j].bins@.len() && bars@[j].time_s
                        == (#[trigger] flat@[f]).0 && bars@[j].bins@[q].price == flat@[f].1) || (
                flat@[f].0 == cur_key && exists|q: int|
                    0 <= q < cur@.len() && cur@[q].price == flat@[f].1) by {
                    if f < m {
                        if flat@[f].0 == cur_key {
                            if exists|q: int| 0 <= q < old_cur.len() && old_cur[q].price == flat@[f].1 {
                                let q = choose|q: int| 0 <= q < old_cur.len() && old_cur[q].price == flat@[f].1;
                                assert(cur@[q] == old_cur[q]);
                            }
                        }
                    } else {
                        assert(cur@[cur@.len() - 1].price == flat@[f].1);
                    }
                }
            }
        } else {
            let ghost old_bars = bars@;
            let ghost old_cur = cur@;
            let ghost old_key = cur_key;
            if m > 0 {
                assert(key_lt((flat@[m - 1].0, flat@[m - 1].1), (flat@[m as int].0, flat@[m as int].1)));
                assert(old_key < k);
                let done = FootprintBar { time_s: cur_key, bins: cur };
                bars.push(done);
                assert(bars@[bars@.len() - 1].time_s == old_key);
                proof {
                    assert(key_lt((flat@[m - 1].0, flat@[m - 1].1), (flat@[m as int].0, flat@[m as int].1)));
                    assert(bar_ok(done, trades@, tf));
                    assert forall|j: int| 0 <= j < bars@.len() implies bar_ok(#[trigger] bars@[j], trades@, tf) by {
                        if j < old_bars.len() {
                            assert(bars@[j] == old_bars[j]);
                        }
                    }
                    assert forall|a: int, bb: int| 0 <= a < bb < bars@.len() implies bars@[a].time_s
                        < bars@[bb].time_s by {
                        assert(bars@[a] == old_bars[a] || a == old_bars.len());
                        if bb < old_bars.len() {
                            assert(bars@[a] == old_bars[a]);
                            assert(bars@[bb] == old_bars[bb]);
                        } else {
                            assert(bars@[a] == old_bars[a]);
                        }
                    }
                }
            }
            cur = Vec::new();
            cur.push(bin);
            cur_key = k;
            proof {
                assert forall|j: int| 0 <= j < bars@.len() implies bars@[j].time_s < cur_key by {
                    if m > 0 {
                        if j < old_bars.len() {
                            assert(bars@[j] == old_bars[j]);
                        }
                    }
                }
                assert forall|f: int| 0 <= f < m + 1 implies (exists|j: int, q: int|
                    0 <= j < bars@.len() && 0 <= q < bars@[j].bins@.len() && bars@[j].time_s
                        == (#[trigger] flat@[f]).0 && bars@[j].bins@[q].price == flat@[f].1) || (
                flat@[f].0 == cur_key && exists|q: int|
                    0 <= q < cur@.len() && cur@[q].price == flat@[f].1) by {
                    if f < m {
                        if exists|j: int, q: int|
                            0 <= j < old_bars.len() && 0 <= q < old_bars[j].bins@.len()
                                && old_bars[j].time_s == flat@[f].0 && old_bars[j].bins@[q].price
                                == flat@[f].1 {
                            let (j, q) = choose|j: int, q: int|
                                0 <= j < old_bars.len() && 0 <= q < old_bars[j].bins@.len()
                                    && old_bars[j].time_s == flat@[f].0 && old_bars[j].bins@[q].price
                                    == flat@[f].1;
                            assert(bars@[j] == old_bars[j]);
                        } else {
                            let q = choose|q: int| 0 <= q < old_cur.len() && old_cur[q].price == flat@[f].1;
                            let j = old_bars.len() as int;
                            assert(bars@[j].bins@ == old_cur);
                            assert(bars@[j].time_s == flat@[f].0);
                        }
                    } else {
                        assert(cur@[0].price == flat@[f].1);
                    }
                }
            }
        }
        m = m + 1;
    }
    let ghost before_bars = bars@;
    if m > 0 {
        bars.push(FootprintBar { time_s: cur_key, bins: cur });
    }
    proof {
        assert forall|j: int| 0 <= j < bars@.len() implies bar_ok(#[trigger] bars@[j], trades@, tf) by {
            if j < before_bars.len() {
                assert(bars@[j] == before_bars[j]);
            }
        }
        assert forall|a: int, bb: int| 0 <= a < bb < bars@.len() implies bars@[a].time_s
            < bars@[bb].time_s by {
            assert(bars@[a] == before_bars[a]);
            if bb < before_bars.len() {
                assert(bars@[bb] == before_bars[bb]);
            }
        }
        assert forall|w: int| 0 <= w < trades@.len() implies exists|j: int, q: int|
            0 <= j < bars@.len() && 0 <= q < bars@[j].bins@.len() && bars@[j].time_s
                == priced_bucket(#[trigger] trades@[w], timeframe_ms as int)
                && bars@[j].bins@[q].price == trades@[w].1 by {
            let f = choose|f: int|
                0 <= f < flat@.len() && flat@[f].0 == priced_bucket(trades@[w], tf) && flat@[f].1
                    == trades@[w].1;
            if exists|j: int, q: int|
                0 <= j < before_bars.len() && 0 <= q < before_bars[j].bins@.len()
                    && before_bars[j].time_s == flat@[f].0 && before_bars[j].bins@[q].price
                    == flat@[f].1 {
                let (j, q) = choose|j: int, q: int|
                    0 <= j < before_bars.len() && 0 <= q < before_bars[j].bins@.len()
                        && before_bars[j].time_s == flat@[f].0 && before_bars[j].bins@[q].price
                        == flat@[f].1;
                assert(bars@[j] == before_bars[j]);
            } else {
                let j = before_bars.len() as int;
                assert(bars@[j].time_s == cur_key);
            }
        }
    }
    proof {
        let v = bars_view(bars@);
        assert forall|j: int| 0 <= j < v.len() implies #[trigger] v[j] == (bars@[j].time_s, bars@[j].bins@) by {}
        assert forall|j: int| 0 <= j < v.len() implies bar_view_ok((#[trigger] v[j]).0, v[j].1, trades@, tf) by {
            assert(bar_ok(bars@[j], trades@, tf));
        }
        assert forall|a: int, b: int| 0 <= a < b < v.len() implies v[a].0 < v[b].0 by {
            assert(bars@[a].time_s < bars@[b].time_s);
        }
        assert forall|w: int| 0 <= w < trades@.len() implies exists|j: int, q: int|
            0 <= j < v.len() && 0 <= q < v[j].1.len() && v[j].0 == priced_bucket(#[trigger] trades@[w], tf)
                && v[j].1[q].price == trades@[w].1 by {
            let (j, q) = choose|j: int, q: int|
                0 <= j < bars@.len() && 0 <= q < bars@[j].bins@.len() && bars@[j].time_s
                    == priced_bucket(trades@[w], tf) && bars@[j].bins@[q].price == trades@[w].1;
            assert(v[j] == (bars@[j].time_s, bars@[j].bins@));
        }
    }
    bars
}


// ── Order-flow faithfulness ─────────────────────────────────────────────────────────────

/// A book delta or a trade of the order-flow stream.
#[derive(Clone, Debug, PartialEq)]
pub enum FaithEvent {
    Delta { ts_ms: i64, bids: Vec<Level>, asks: Vec<Level> },
    Trade { ts_ms: i64, price: i64, side: Side, size: i64 },
}

/// How many trades were checked, and of these how many were followed in time by a book
/// delta that took the traded size off the level (consistent) or were not (inconsistent).
#[derive(Clone, Copy, Debug, PartialEq, Eq, Default)]
pub struct FaithReport {
    pub checked: u64,
    pub consistent: u64,
    pub inconsistent: u64,
}

/// A trade waiting for its book delta, with the largest visible size of its level since it.
#[derive(Clone, Copy, Debug, PartialEq, Eq)]
pub struct PendingTrade {
    pub ts_ms: i64,
    pub price: i64,
    pub size: i64,
    pub max_size_since_trade: i64,
}

/// `a − b` saturated to the `i64` range.
pub open spec fn sat_sub(a: i64, b: i64) -> int {
    let d = a - b;
    if d > i64::MAX {
        i64::MAX as int
    } else if d < i64::MIN {
        i64::MIN as int
    } else {
        d
    }
}

/// Visible size at price `p` of the running book (0 when absent).
pub open spec fn book_size(b: Map<i64, i64>, p: i64) -> i64 {
    if b.contains_key(p) {
        b[p]
    } else {
        0
    }
}

/// One delta level on the running book: size 0 removes the price, a positive size sets it.
pub open spec fn book_level_step(b: Map<i64, i64>, l: Level) -> Map<i64, i64> {
    if l.size == 0 {
        b.remove(l.price)
    } else if l.size > 0 {
        b.insert(l.price, l.size)
    } else {
        b
    }
}

pub open spec fn book_levels(b: Map<i64, i64>, levels: Seq<Level>) -> Map<i64, i64>
    decreases levels.len(),
{
    if levels.len() == 0 {
        b
    } else {
        book_level_step(book_levels(b, levels.drop_last()), levels.last())
    }
}

/// The oldest waiting trades whose age at `ts` exceeds the window leave, oldest first;
/// returns the rest and how many left.
pub open spec fn expire(p: Seq<PendingTrade>, ts: i64, w: i64) -> (Seq<PendingTrade>, nat)
    decreases p.len(),
{
    if p.len() == 0 || sat_sub(ts, p[0].ts_ms) <= w {
        (p, 0)
    } else {
        let (r, n) = expire(p.drop_first(), ts, w);
        (r, n + 1)
    }
}

/// Some level of the delta is at price `p`.
pub open spec fn touched(bids: Seq<Level>, asks: Seq<Level>, p: i64) -> bool {
    (exists|i: int| 0 <= i < bids.len() && bids[i].price == p) || (exists|i: int|
        0 <= i < asks.len() && asks[i].price == p)
}

/// A waiting trade at a touched level is consistent when the delta is strictly later and
/// within the window, and the level is gone or has dropped by at least the traded size
/// from its largest size since the trade.
pub open spec fn trade_matched(t: PendingTrade, cur: i64, ts: i64, w: i64) -> bool {
    &&& ts > t.ts_ms
    &&& sat_sub(ts, t.ts_ms) <= w
    &&& (cur == 0 || sat_sub(t.max_size_since_trade, cur) >= t.size)
}

/// Resolve the waiting trades against a delta applied to the book `b`: trades at touched
/// levels first raise their largest-size mark to the current size, then leave when matched;
/// returns the remaining trades (order kept) and how many were consistent.
pub open spec fn resolve(
    p: Seq<PendingTrade>,
    b: Map<i64, i64>,
    bids: Seq<Level>,
    asks: Seq<Level>,
    ts: i64,
    w: i64,
) -> (Seq<PendingTrade>, nat)
    decreases p.len(),
{
    if p.len() == 0 {
        (p, 0)
    } else {
        let (r, n) = resolve(p.drop_last(), b, bids, asks, ts, w);
        let t = p.last();
        if touched(bids, asks, t.price) {
            let cur = book_size(b, t.price);
            let t2 = PendingTrade {
                max_size_since_trade: if cur > t.max_size_since_trade {
                    cur
                } else {
                    t.max_size_since_trade
                },
                ..t
            };
            if trade_matched(t2, cur, ts, w) {
                (r, n + 1)
            } else {
                (r.push(t2), n)
            }
        } else {
            (r.push(t), n)
        }
    }
}

/// State of the faithfulness check.
pub struct FaithState {
    pub book: Map<i64, i64>,
    pub pending: Seq<PendingTrade>,
    pub checked: nat,
    pub consistent: nat,
    pub inconsistent: nat,
}

pub open spec fn faith_step(st: FaithState, e: FaithEvent, w: i64) -> FaithState {
    match e {
        FaithEvent::Delta { ts_ms, bids, asks } => {
            let (p1, expired) = expire(st.pending, ts_ms, w);
            let b2 = book_levels(book_levels(st.book, bids@), asks@);
            let (p2, matched) = resolve(p1, b2, bids@, asks@, ts_ms, w);
            FaithState {
                book: b2,
                pending: p2,
                consistent: st.consistent + matched,
                inconsistent: st.inconsistent + expired,
                ..st
            }
        },
        FaithEvent::Trade { ts_ms, price, side, size } => {
            let (p1, expired) = expire(st.pending, ts_ms, w);
            FaithState {
                pending: p1.push(
                    PendingTrade {
                        ts_ms,
                        price,
                        size,
                        max_size_since_trade: book_size(st.book, price),
                    },
                ),
                checked: st.checked + 1,
                inconsistent: st.inconsistent + expired,
                ..st
            }
        },
    }
}

pub open spec fn faith_run(events: Seq<FaithEvent>, w: i64) -> FaithState
    decreases events.len(),
{
    if events.len() == 0 {
        FaithState {
            book: Map::empty(),
            pending: Seq::empty(),
            checked: 0,
            consistent: 0,
            inconsistent: 0,
        }
    } else {
        faith_step(faith_run(events.drop_last(), w), events.last(), w)
    }
}

fn book_size_exec(book: &HashMap<i64, i64>, p: i64) -> (r: i64)
    ensures
        r == book_size(book@, p),
{
    broadcast use vstd::std_specs::hash::group_hash_axioms;
    match book.get(&p) {
        Some(v) => *v,
        None => 0,
    }
}

fn apply_book_levels(book: &mut HashMap<i64, i64>, levels: &Vec<Level>)
    ensures
        final(book)@ == book_levels(old(book)@, levels@),
{
    broadcast use vstd::std_specs::hash::group_hash_axioms;
    let mut i: usize = 0;
    while i < levels.len()
        invariant
            i <= levels@.len(),
            book@ == book_levels(old(book)@, levels@.subrange(0, i as int)),
        decreases levels@.len() - i,
    {
        let l = levels[i];
        proof {
            assert(levels@.subrange(0, i + 1).drop_last() =~= levels@.subrange(0, i as int));
        }
        if l.size == 0 {
            book.remove(&l.price);
        } else if l.size > 0 {
            book.insert(l.price, l.size);
        }
        i = i + 1;
    }
    assert(levels@.subrange(0, levels@.len() as int) =~= levels@);
}

fn sat_sub_exec(a: i64, b: i64) -> (r: i64)
    ensures
        r == sat_sub(a, b),
{
    let d: i128 = a as i128 - b as i128;
    if d > i64::MAX as i128 {
        i64::MAX
    } else if d < i64::MIN as i128 {
        i64::MIN
    } else {
        d as i64
    }
}

fn expire_exec(pending: &mut Vec<PendingTrade>, ts: i64, w: i64) -> (n: u64)
    requires
        old(pending)@.len() <= u64::MAX,
    ensures
        final(pending)@ == expire(old(pending)@, ts, w).0,
        n == expire(old(pending)@, ts, w).1,
{
    let mut n: u64 = 0;
    while pending.len() > 0 && sat_sub_exec(ts, pending[0].ts_ms) > w
        invariant
            expire(pending@, ts, w).0 == expire(old(pending)@, ts, w).0,
            expire(pending@, ts, w).1 + n == expire(old(pending)@, ts, w).1,
            n + pending@.len() == old(pending)@.len(),
            old(pending)@.len() <= u64::MAX,
        decreases pending@.len(),
    {
        let ghost before = pending@;
        pending.remove(0);
        assert(pending@ =~= before.drop_first());
        n = n + 1;
    }
    n
}

fn touched_exec(bids: &Vec<Level>, asks: &Vec<Level>, p: i64) -> (r: bool)
    ensures
        r == touched(bids@, asks@, p),
{
    let mut i: usize = 0;
    while i < bids.len()
        invariant
            i <= bids@.len(),
            forall|q: int| 0 <= q < i ==> bids@[q].price != p,
        decreases bids@.len() - i,
    {
        if bids[i].price == p {
            return true;
        }
        i = i + 1;
    }
    let mut k: usize = 0;
    while k < asks.len()
        invariant
            k <= asks@.len(),
            forall|q: int| 0 <= q < bids@.len() ==> bids@[q].price != p,
            forall|q: int| 0 <= q < k ==> asks@[q].price != p,
        decreases asks@.len() - k,
    {
        if asks[k].price == p {
            return true;
        }
        k = k + 1;
    }
    false
}

fn resolve_exec(
    pending: &Vec<PendingTrade>,
    book: &HashMap<i64, i64>,
    bids: &Vec<Level>,
    asks: &Vec<Level>,
    ts: i64,
    w: i64,
) -> (r: (Vec<PendingTrade>, u64))
    requires
        pending@.len() <= u64::MAX,
    ensures
        r.0@ == resolve(pending@, book@, bids@, asks@, ts, w).0,
        r.1 == resolve(pending@, book@, bids@, asks@, ts, w).1,
        r.0@.len() + r.1 == pending@.len(),
{
    let mut kept: Vec<PendingTrade> = Vec::new();
    let mut n: u64 = 0;
    let mut i: usize = 0;
    while i < pending.len()
        invariant
            i <= pending@.len(),
            pending@.len() <= u64::MAX,
            kept@ == resolve(pending@.subrange(0, i as int), book@, bids@, asks@, ts, w).0,
            n == resolve(pending@.subrange(0, i as int), book@, bids@, asks@, ts, w).1,
            kept@.len() + n == i,
        decreases pending@.len() - i,
    {
        let t = pending[i];
        proof {
            assert(pending@.subrange(0, i + 1).drop_last() =~= pending@.subrange(0, i as int));
        }
        if touched_exec(bids, asks, t.price) {
            let cur = book_size_exec(book, t.price);
            let t2 = PendingTrade {
                max_size_since_trade: if cur > t.max_size_since_trade {
                    cur
                } else {
                    t.max_size_since_trade
                },
                ..t
            };
            let matched = ts > t2.ts_ms && sat_sub_exec(ts, t2.ts_ms) <= w && (cur == 0
                || sat_sub_exec(t2.max_size_since_trade, cur) >= t2.size);
            if matched {
                n = n + 1;
            } else {
                kept.push(t2);
            }
        } else {
            kept.push(t);
        }
        i = i + 1;
    }
    assert(pending@.subrange(0, pending@.len() as int) =~= pending@);
    (kept, n)
}

/// Waiting trades that a delta at `ts` with these levels can judge: the delta touches the
/// trade's price, and the trade is strictly older than `ts` by at most the window.
pub open spec fn matchable_count(p: Seq<PendingTrade>, bids: Seq<Level>, asks: Seq<Level>, ts: i64, w: i64) -> nat
    decreases p.len(),
{
    if p.len() == 0 {
        0
    } else {
        matchable_count(p.drop_last(), bids, asks, ts, w) + if touched(bids, asks, p.last().price) && p.last().ts_ms < ts
            && sat_sub(ts, p.last().ts_ms) <= w { 1nat } else { 0nat }
    }
}

/// Waiting trades older than `ts` by more than the window.
pub open spec fn too_old_count(p: Seq<PendingTrade>, ts: i64, w: i64) -> nat
    decreases p.len(),
{
    if p.len() == 0 {
        0
    } else {
        too_old_count(p.drop_last(), ts, w) + if sat_sub(ts, p.last().ts_ms) > w { 1nat } else { 0nat }
    }
}

proof fn lemma_counts_first(p: Seq<PendingTrade>, bids: Seq<Level>, asks: Seq<Level>, ts: i64, w: i64)
    requires
        p.len() > 0,
    ensures
        matchable_count(p, bids, asks, ts, w) == matchable_count(p.drop_first(), bids, asks, ts, w)
            + if touched(bids, asks, p[0].price) && p[0].ts_ms < ts && sat_sub(ts, p[0].ts_ms) <= w { 1nat } else { 0nat },
        too_old_count(p, ts, w) == too_old_count(p.drop_first(), ts, w) + if sat_sub(ts, p[0].ts_ms) > w { 1nat } else { 0nat },
    decreases p.len(),
{
    let q = p.drop_first();
    if p.len() > 1 {
        lemma_counts_first(p.drop_last(), bids, asks, ts, w);
        assert(p.drop_last().drop_first() =~= q.drop_last());
        assert(q.last() == p.last());
        assert(p.drop_last()[0] == p[0]);
        assert(matchable_count(q, bids, asks, ts, w) == matchable_count(q.drop_last(), bids, asks, ts, w)
            + if touched(bids, asks, q.last().price) && q.last().ts_ms < ts && sat_sub(ts, q.last().ts_ms) <= w { 1nat } else { 0nat });
        assert(too_old_count(q, ts, w) == too_old_count(q.drop_last(), ts, w)
            + if sat_sub(ts, q.last().ts_ms) > w { 1nat } else { 0nat });
    } else {
        assert(q.len() == 0);
        assert(p.drop_last().len() == 0);
        assert(p.last() == p[0]);
        assert(matchable_count(p.drop_last(), bids, asks, ts, w) == 0);
        assert(too_old_count(p.drop_last(), ts, w) == 0);
        assert(matchable_count(q, bids, asks, ts, w) == 0);
        assert(too_old_count(q, ts, w) == 0);
    }
}

/// Expiry removes only trades older than the window, and leaves no new trade to judge.
proof fn lemma_expire_counts(p: Seq<PendingTrade>, bids: Seq<Level>, asks: Seq<Level>, ts: i64, w: i64)
    ensures
        expire(p, ts, w).1 <= too_old_count(p, ts, w),
        matchable_count(expire(p, ts, w).0, bids, asks, ts, w) <= matchable_count(p, bids, asks, ts, w),
    decreases p.len(),
{
    if p.len() > 0 && sat_sub(ts, p[0].ts_ms) > w {
        lemma_expire_counts(p.drop_first(), bids, asks, ts, w);
        lemma_counts_first(p, bids, asks, ts, w);
    }
}

/// A delta at `ts` matches only waiting trades at a price it touches, strictly older than it
/// by at most the window.
proof fn lemma_resolve_in_window(p: Seq<PendingTrade>, b: Map<i64, i64>, bids: Seq<Level>, asks: Seq<Level>, ts: i64, w: i64)
    ensures
        resolve(p, b, bids, asks, ts, w).1 <= matchable_count(p, bids, asks, ts, w),
    decreases p.len(),
{
    if p.len() > 0 {
        lemma_resolve_in_window(p.drop_last(), b, bids, asks, ts, w);
    }
}

/// A trade is judged consistent only by a book delta strictly after it, within the window,
/// at its price: a trade event counts no trade consistent; a delta at `ts` counts consistent
/// at most the waiting trades at a price it touches that are strictly older than `ts` by at
/// most the window; and trades are counted inconsistent on expiry only when they are older
/// than the window.
pub proof fn law_consistent_only_within_window(st: FaithState, e: FaithEvent, w: i64)
    ensures
        match e {
            FaithEvent::Trade { ts_ms, .. } => {
                &&& faith_step(st, e, w).consistent == st.consistent
                &&& faith_step(st, e, w).inconsistent <= st.inconsistent + too_old_count(st.pending, ts_ms, w)
            },
            FaithEvent::Delta { ts_ms, bids, asks } => {
                &&& faith_step(st, e, w).consistent <= st.consistent + matchable_count(st.pending, bids@, asks@, ts_ms, w)
                &&& faith_step(st, e, w).inconsistent <= st.inconsistent + too_old_count(st.pending, ts_ms, w)
            },
        },
{
    match e {
        FaithEvent::Trade { ts_ms, .. } => {
            lemma_expire_counts(st.pending, Seq::empty(), Seq::empty(), ts_ms, w);
        },
        FaithEvent::Delta { ts_ms, bids, asks } => {
            lemma_expire_counts(st.pending, bids@, asks@, ts_ms, w);
            let p1 = expire(st.pending, ts_ms, w).0;
            let b2 = book_levels(book_levels(st.book, bids@), asks@);
            lemma_resolve_in_window(p1, b2, bids@, asks@, ts_ms, w);
        },
    }
}

/// Without any book delta nothing is ever consistent: every checked trade ends inconsistent.
pub proof fn law_no_delta_nothing_consistent(events: Seq<FaithEvent>, w: i64)
    requires
        forall|i: int| 0 <= i < events.len() ==> (#[trigger] events[i]) is Trade,
    ensures
        faith_run(events, w).consistent == 0,
    decreases events.len(),
{
    if events.len() > 0 {
        let d = events.drop_last();
        assert forall|i: int| 0 <= i < d.len() implies (#[trigger] d[i]) is Trade by {
            assert(d[i] == events[i]);
        }
        law_no_delta_nothing_consistent(d, w);
        assert(events.last() == events[events.len() - 1]);
        law_consistent_only_within_window(faith_run(d, w), events.last(), w);
    }
}

proof fn lemma_expire_len(p: Seq<PendingTrade>, ts: i64, w: i64)
    ensures
        expire(p, ts, w).0.len() + expire(p, ts, w).1 == p.len(),
    decreases p.len(),
{
    if p.len() > 0 && sat_sub(ts, p[0].ts_ms) > w {
        lemma_expire_len(p.drop_first(), ts, w);
    }
}

/// Check the trades of the stream against its book deltas: each trade waits for a later
/// delta within `window_ms` that empties its price level or lowers it by the traded size
/// (the state machine `faith_run`); trades whose window passes, or that still wait at the
/// end, are inconsistent. Every trade is checked exactly once and ends consistent or
/// inconsistent. `window_ms ≤ 0` checks nothing.
pub fn consistency(events: &Vec<FaithEvent>, window_ms: i64) -> (r: FaithReport)
    ensures
        window_ms <= 0 ==> r.checked == 0 && r.consistent == 0 && r.inconsistent == 0,
        window_ms > 0 ==> r.checked == faith_run(events@, window_ms).checked,
        window_ms > 0 ==> r.consistent == faith_run(events@, window_ms).consistent,
        window_ms > 0 ==> r.inconsistent == faith_run(events@, window_ms).inconsistent + faith_run(
            events@,
            window_ms,
        ).pending.len(),
        r.checked == r.consistent + r.inconsistent,
{
    let mut report = FaithReport { checked: 0, consistent: 0, inconsistent: 0 };
    if window_ms <= 0 {
        return report;
    }
    let mut book: HashMap<i64, i64> = HashMap::new();
    let mut pending: Vec<PendingTrade> = Vec::new();
    let mut i: usize = 0;
    while i < events.len()
        invariant
            i <= events@.len(),
            window_ms > 0,
            book@ == faith_run(events@.subrange(0, i as int), window_ms).book,
            pending@ == faith_run(events@.subrange(0, i as int), window_ms).pending,
            report.checked == faith_run(events@.subrange(0, i as int), window_ms).checked,
            report.consistent == faith_run(events@.subrange(0, i as int), window_ms).consistent,
            report.inconsistent == faith_run(events@.subrange(0, i as int), window_ms).inconsistent,
            report.consistent + report.inconsistent + pending@.len() == report.checked,
            report.checked <= i,
        decreases events@.len() - i,
    {
        proof {
            assert(events@.subrange(0, i + 1).drop_last() =~= events@.subrange(0, i as int));
            assert(events@.subrange(0, i + 1).last() == events@[i as int]);
            lemma_expire_len(pending@, i64::MIN, window_ms);
        }
        match &events[i] {
            FaithEvent::Delta { ts_ms, bids, asks } => {
                proof {
                    lemma_expire_len(pending@, *ts_ms, window_ms);
                }
                let expired = expire_exec(&mut pending, *ts_ms, window_ms);
                report.inconsistent = report.inconsistent + expired;
                apply_book_levels(&mut book, bids);
                apply_book_levels(&mut book, asks);
                let (kept, matched) = resolve_exec(&pending, &book, bids, asks, *ts_ms, window_ms);
                pending = kept;
                report.consistent = report.consistent + matched;
            },
            FaithEvent::Trade { ts_ms, price, side: _, size } => {
                proof {
                    lemma_expire_len(pending@, *ts_ms, window_ms);
                }
                let expired = expire_exec(&mut pending, *ts_ms, window_ms);
                report.inconsistent = report.inconsistent + expired;
                report.checked = report.checked + 1;
                let cur = book_size_exec(&book, *price);
                pending.push(
                    PendingTrade {
                        ts_ms: *ts_ms,
                        price: *price,
                        size: *size,
                        max_size_since_trade: cur,
                    },
                );
            },
        }
        i = i + 1;
    }
    assert(events@.subrange(0, events@.len() as int) =~= events@);
    report.inconsistent = report.inconsistent + pending.len() as u64;
    report
}

} // verus!
