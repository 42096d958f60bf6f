//! OHLCV candles from trades, bucketed by timeframe, for chart front-ends (time in seconds).

use vstd::prelude::*;

use crate::bucket::{bucket_index_to_seconds, bucket_start_s};

verus! {

/// OHLCV aggregate of the trades of one timeframe bucket.
#[derive(Clone, Copy, Debug, PartialEq, Eq)]
pub struct OhlcvBar {
    /// Bucket start in seconds.
    pub time_s: i64,
    /// Price of the first trade of the bucket.
    pub open: i64,
    /// Highest price of the bucket.
    pub high: i64,
    /// Lowest price of the bucket.
    pub low: i64,
    /// Price of the last trade of the bucket.
    pub close: i64,
    /// Sum of the sizes of the bucket.
    pub volume: i64,
}

/// A trade `(ts_ms, price, size)`.
pub type PriceTrade = (i64, i64, i64);

pub open spec fn trade_bucket(t: PriceTrade, tf: int) -> int {
    bucket_start_s(t.0 as int, tf)
}

/// Some trade falls in bucket `k`.
pub open spec fn has_trade_in(trades: Seq<PriceTrade>, tf: int, k: int) -> bool {
    exists|i: int| 0 <= i < trades.len() && trade_bucket(trades[i], tf) == k
}

/// Price of the first trade in bucket `k`.
pub open spec fn bucket_open(trades: Seq<PriceTrade>, tf: int, k: int) -> Option<i64>
    decreases trades.len(),
{
    if trades.len() == 0 {
        None
    } else {
        match bucket_open(trades.drop_last(), tf, k) {
            Some(p) => Some(p),
            None => if trade_bucket(trades.last(), tf) == k {
                Some(trades.last().1)
            } else {
                None
            },
        }
    }
}

/// Price of the last trade in bucket `k`.
pub open spec fn bucket_close(trades: Seq<PriceTrade>, tf: int, k: int) -> Option<i64>
    decreases trades.len(),
{
    if trades.len() == 0 {
        None
    } else if trade_bucket(trades.last(), tf) == k {
        Some(trades.last().1)
    } else {
        bucket_close(trades.drop_last(), tf, k)
    }
}

/// Highest price in bucket `k`.
pub open spec fn bucket_high(trades: Seq<PriceTrade>, tf: int, k: int) -> Option<i64>
    decreases trades.len(),
{
    if trades.len() == 0 {
        None
    } else {
        let p = trades.last().1;
        let prev = bucket_high(trades.drop_last(), tf, k);
        if trade_bucket(trades.last(), tf) == k {
            match prev {
                Some(h) => Some(if p > h { p } else { h }),
                None => Some(p),
            }
        } else {
            prev
        }
    }
}

/// Lowest price in bucket `k`.
pub open spec fn bucket_low(trades: Seq<PriceTrade>, tf: int, k: int) -> Option<i64>
    decreases trades.len(),
{
    if trades.len() == 0 {
        None
    } else {
        let p = trades.last().1;
        let prev = bucket_low(trades.drop_last(), tf, k);
        if trade_bucket(trades.last(), tf) == k {
            match prev {
                Some(l) => Some(if p < l { p } else { l }),
                None => Some(p),
            }
        } else {
            prev
        }
    }
}

/// Sum of the sizes in bucket `k`.
pub open spec fn bucket_volume(trades: Seq<PriceTrade>, tf: int, k: int) -> int
    decreases trades.len(),
{
    if trades.len() == 0 {
        0
    } else {
        bucket_volume(trades.drop_last(), tf, k) + (if trade_bucket(trades.last(), tf) == k {
            trades.last().2 as int
        } else {
            0
        })
    }
}

/// Every running per-bucket volume sum fits in `i64`.
pub open spec fn volumes_fit(trades: Seq<PriceTrade>, tf: int) -> bool {
    forall|i: int, k: int|
        0 <= i <= trades.len() ==> i64::MIN <= #[trigger] bucket_volume(trades.subrange(0, i), tf, k)
            <= i64::MAX
}

proof fn lemma_bucket_none(trades: Seq<PriceTrade>, tf: int, k: int)
    requires
        !has_trade_in(trades, tf, k),
    ensures
        bucket_open(trades, tf, k) is None,
        bucket_close(trades, tf, k) is None,
        bucket_high(trades, tf, k) is None,
        bucket_low(trades, tf, k) is None,
        bucket_volume(trades, tf, k) == 0,
    decreases trades.len(),
{
    if trades.len() > 0 {
        assert(!has_trade_in(trades.drop_last(), tf, k)) by {
            if has_trade_in(trades.drop_last(), tf, k) {
                let i = choose|i: int|
                    0 <= i < trades.drop_last().len() && trade_bucket(trades.drop_last()[i], tf)
                        == k;
                assert(trades[i] == trades.drop_last()[i]);
            }
        }
        lemma_bucket_none(trades.drop_last(), tf, k);
        assert(trade_bucket(trades[trades.len() - 1], tf) != k);
    }
}

/// Running aggregate of one bucket.
struct Accumulator {
    open: i64,
    high: i64,
    low: i64,
    close: i64,
    volume: i64,
}

impl Accumulator {
    /// Aggregate of a bucket's first trade.
    fn seed(price: i64, size: i64) -> (r: Self)
        ensures
            r.open == price && r.high == price && r.low == price && r.close == price && r.volume
                == size,
    {
        Accumulator { open: price, high: price, low: price, close: price, volume: size }
    }

    /// Fold one more trade of the bucket into the aggregate.
    fn update(&mut self, price: i64, size: i64)
        requires
            i64::MIN <= old(self).volume + size <= i64::MAX,
        ensures
            final(self).open == old(self).open,
            final(self).high == (if price > old(self).high {
                price
            } else {
                old(self).high
            }),
            final(self).low == (if price < old(self).low {
                price
            } else {
                old(self).low
            }),
            final(self).close == price,
            final(self).volume == old(self).volume + size,
    {
        if price > self.high {
            self.high = price;
        }
        if price < self.low {
            self.low = price;
        }
        self.close = price;
        self.volume = self.volume + size;
    }
}

spec fn acc_ok(acc: (i64, Accumulator), trades: Seq<PriceTrade>, tf: int) -> bool {
    &&& has_trade_in(trades, tf, acc.0 as int)
    &&& Some(acc.1.open) == bucket_open(trades, tf, acc.0 as int)
    &&& Some(acc.1.high) == bucket_high(trades, tf, acc.0 as int)
    &&& Some(acc.1.low) == bucket_low(trades, tf, acc.0 as int)
    &&& Some(acc.1.close) == bucket_close(trades, tf, acc.0 as int)
    &&& acc.1.volume == bucket_volume(trades, tf, acc.0 as int)
}

/// `r` is the candle series of `trades` per `tf` bucket: ascending buckets, one per bucket
/// holding a trade, each candle with the bucket's open, high, low, close and volume.
pub open spec fn ohlcv_ok(r: Seq<OhlcvBar>, trades: Seq<PriceTrade>, tf: int) -> bool {
    &&& forall|a: int, b: int| 0 <= a < b < r.len() ==> r[a].time_s < r[b].time_s
    &&& forall|j: int|
        0 <= j < r.len() ==> {
            let k = (#[trigger] r[j]).time_s as int;
            &&& has_trade_in(trades, tf, k)
            &&& Some(r[j].open) == bucket_open(trades, tf, k)
            &&& Some(r[j].high) == bucket_high(trades, tf, k)
            &&& Some(r[j].low) == bucket_low(trades, tf, k)
            &&& Some(r[j].close) == bucket_close(trades, tf, k)
            &&& r[j].volume == bucket_volume(trades, tf, k)
        }
    &&& forall|i: int|
        0 <= i < trades.len() ==> exists|j: int|
            0 <= j < r.len() && r[j].time_s == trade_bucket(
                #[trigger] trades[i],
                tf,
            )
}

/// Candles of `trades` per `timeframe_ms` bucket, in ascending bucket order, one per bucket
/// that holds a trade; `timeframe_ms ≤ 0` gives no candle. A candle's open and close are the
/// prices of the bucket's first and last trade in input order, high and low its extreme
/// prices, volume the sum of its sizes.
pub fn ohlcv_bars(trades: &Vec<PriceTrade>, timeframe_ms: i64) -> (r: Vec<OhlcvBar>)
    requires
        timeframe_ms > 0 ==> volumes_fit(trades@, timeframe_ms as int),
    ensures
        timeframe_ms <= 0 ==> r@.len() == 0,
        timeframe_ms > 0 ==> ohlcv_ok(r@, trades@, timeframe_ms as int),
{
    if timeframe_ms <= 0 {
        return Vec::new();
    }
    let ghost tf = timeframe_ms as int;
    let mut buckets: Vec<(i64, Accumulator)> = Vec::new();
    let mut i: usize = 0;
    while i < trades.len()
        invariant
            i <= trades@.len(),
            timeframe_ms > 0,
            tf == timeframe_ms as int,
            volumes_fit(trades@, tf),
            forall|a: int, b: int| 0 <= a < b < buckets@.len() ==> buckets@[a].0 < buckets@[b].0,
            forall|j: int|
                0 <= j < buckets@.len() ==> acc_ok(
                    #[trigger] buckets@[j],
                    trades@.subrange(0, i as int),
                    tf,
                ),
            forall|k: int|
                has_trade_in(trades@.subrange(0, i as int), tf, k) ==> exists|j: int|
                    0 <= j < buckets@.len() && buckets@[j].0 == k,
        decreases trades@.len() - i,
    {
        let (ts, price, size) = trades[i];
        let k = bucket_index_to_seconds(ts, timeframe_ms);
        let ghost pre = trades@.subrange(0, i as int);
        let ghost post = trades@.subrange(0, i + 1);
        proof {
            assert(post.drop_last() =~= pre);
            assert(post.last() == trades@[i as int]);
        }
        let mut p: usize = 0;
        while p < buckets.len() && buckets[p].0 < k
            invariant
                p <= buckets@.len(),
                forall|q: int| 0 <= q < p ==> buckets@[q].0 < k,
            decreases buckets@.len() - p,
        {
            p = p + 1;
        }
        let ghost old_b = buckets@;
        if p < buckets.len() && buckets[p].0 == k {
            proof {
                assert(acc_ok(old_b[p as int], pre, tf));
                assert(volumes_fit(trades@, tf));
                assert(i64::MIN <= bucket_volume(post, tf, k as int) <= i64::MAX);
            }
            let (kk, mut acc) = buckets.remove(p);
            acc.update(price, size);
            buckets.insert(p, (kk, acc));
            proof {
                assert forall|j: int|
                    0 <= j < buckets@.len() implies acc_ok(#[trigger] buckets@[j], post, tf) by {
                    if j != p {
                        assert(buckets@[j] == old_b[j]);
                        assert(acc_ok(old_b[j], pre, tf));
                        assert(old_b[j].0 != k);
                        let w = choose|w: int|
                            0 <= w < pre.len() && trade_bucket(pre[w], tf) == old_b[j].0;
                        assert(post[w] == pre[w]);
                    } else {
                        assert(post[i as int] == trades@[i as int]);
                    }
                }
                assert forall|kq: int| has_trade_in(post, tf, kq) implies exists|j: int|
                    0 <= j < buckets@.len() && buckets@[j].0 == kq by {
                    let w = choose|w: int| 0 <= w < post.len() && trade_bucket(post[w], tf) == kq;
                    if w < i {
                        assert(pre[w] == post[w]);
                        assert(has_trade_in(pre, tf, kq));
                        let j = choose|j: int| 0 <= j < old_b.len() && old_b[j].0 == kq;
                        assert(buckets@[j].0 == old_b[j].0);
                    } else {
                        assert(buckets@[p as int].0 == kq);
                    }
                }
                assert forall|a: int, b: int|
                    0 <= a < b < buckets@.len() implies buckets@[a].0 < buckets@[b].0 by {
                    assert(buckets@[a].0 == old_b[a].0);
                    assert(buckets@[b].0 == old_b[b].0);
                }
            }
        } else {
            proof {
                assert(!has_trade_in(pre, tf, k as int)) by {
                    if has_trade_in(pre, tf, k as int) {
                        let j = choose|j: int| 0 <= j < old_b.len() && old_b[j].0 == k;
                        if j < p {
                        } else if j > p {
                            assert(old_b[p as int].0 < old_b[j].0);
                        }
                    }
                }
                lemma_bucket_none(pre, tf, k as int);
                assert(i64::MIN <= bucket_volume(post, tf, k as int) <= i64::MAX);
            }
            let acc = Accumulator::seed(price, size);
            buckets.insert(p, (k, acc));
            proof {
                assert forall|j: int|
                    0 <= j < buckets@.len() implies acc_ok(#[trigger] buckets@[j], post, tf) by {
                    if j < p {
                        assert(buckets@[j] == old_b[j]);
                    } else if j > p {
                        assert(buckets@[j] == old_b[j - 1]);
                    }
                    if j != p {
                        let jj = if j < p { j } else { j - 1 };
                        assert(acc_ok(old_b[jj], pre, tf));
                        assert(old_b[jj].0 != k);
                        let w = choose|w: int|
                            0 <= w < pre.len() && trade_bucket(pre[w], tf) == old_b[jj].0;
                        assert(post[w] == pre[w]);
                    } else {
                        assert(post[i as int] == trades@[i as int]);
                    }
                }
                assert forall|kq: int| has_trade_in(post, tf, kq) implies exists|j: int|
                    0 <= j < buckets@.len() && buckets@[j].0 == kq by {
                    let w = choose|w: int| 0 <= w < post.len() && trade_bucket(post[w], tf) == kq;
                    if w < i {
                        assert(pre[w] == post[w]);
                        assert(has_trade_in(pre, tf, kq));
                        let j = choose|j: int| 0 <= j < old_b.len() && old_b[j].0 == kq;
                        if j < p {
                            assert(buckets@[j] == old_b[j]);
                        } else {
                            assert(buckets@[j + 1] == old_b[j]);
                        }
                    } else {
                        assert(buckets@[p as int].0 == kq);
                    }
                }
                assert forall|a: int, b: int|
                    0 <= a < b < buckets@.len() implies buckets@[a].0 < buckets@[b].0 by {
                    if b < p {
                        assert(buckets@[a] == old_b[a]);
                        assert(buckets@[b] == old_b[b]);
                    } else if b == p {
                        assert(buckets@[a] == old_b[a]);
                    } else if a == p {
                        assert(buckets@[b] == old_b[b - 1]);
                    } else if a < p {
                        assert(buckets@[a] == old_b[a]);
                        assert(buckets@[b] == old_b[b - 1]);
                    } else {
                        assert(buckets@[a] == old_b[a - 1]);
                        assert(buckets@[b] == old_b[b - 1]);
                    }
                }
            }
        }
        i = i + 1;
    }
    assert(trades@.subrange(0, trades@.len() as int) =~= trades@);
    let mut out: Vec<OhlcvBar> = Vec::new();
    let mut j: usize = 0;
    while j < buckets.len()
        invariant
            j <= buckets@.len(),
            out@.len() == j,
            forall|q: int|
                0 <= q < j ==> {
                    &&& (#[trigger] out@[q]).time_s == buckets@[q].0
                    &&& out@[q].open == buckets@[q].1.open
                    &&& out@[q].high == buckets@[q].1.high
                    &&& out@[q].low == buckets@[q].1.low
                    &&& out@[q].close == buckets@[q].1.close
                    &&& out@[q].volume == buckets@[q].1.volume
                },
        decreases buckets@.len() - j,
    {
        let b = &buckets[j];
        out.push(
            OhlcvBar {
                time_s: b.0,
                open: b.1.open,
                high: b.1.high,
                low: b.1.low,
                close: b.1.close,
                volume: b.1.volume,
            },
        );
        j = j + 1;
    }
    proof {
        assert forall|ii: int| 0 <= ii < trades@.len() implies exists|jj: int|
            0 <= jj < out@.len() && out@[jj].time_s == trade_bucket(
                #[trigger] trades@[ii],
                timeframe_ms as int,
            ) by {
            assert(has_trade_in(trades@, tf, trade_bucket(trades@[ii], tf)));
            let jj = choose|jj: int|
                0 <= jj < buckets@.len() && buckets@[jj].0 == trade_bucket(trades@[ii], tf);
            assert(out@[jj].time_s == buckets@[jj].0);
        }
        assert forall|j: int| 0 <= j < out@.len() implies {
            let k = (#[trigger] out@[j]).time_s as int;
            &&& has_trade_in(trades@, timeframe_ms as int, k)
            &&& Some(out@[j].open) == bucket_open(trades@, timeframe_ms as int, k)
            &&& Some(out@[j].high) == bucket_high(trades@, timeframe_ms as int, k)
            &&& Some(out@[j].low) == bucket_low(trades@, timeframe_ms as int, k)
            &&& Some(out@[j].close) == bucket_close(trades@, timeframe_ms as int, k)
            &&& out@[j].volume == bucket_volume(trades@, timeframe_ms as int, k)
        } by {
            assert(acc_ok(buckets@[j], trades@, tf));
        }
    }
    out
}

} // verus!
