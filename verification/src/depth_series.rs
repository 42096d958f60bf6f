//! Depth time series for charts: per timeframe bucket, the book depth within a band of the
//! last snapshot in the bucket (close semantics). Bid and ask are separate series, computed
//! by separate calls.

use vstd::prelude::*;

use crate::bucket::{bucket_index_to_seconds, bucket_start_s};
use crate::market::Side;
use crate::sim::book::{view_depth, OrderBook};

verus! {

/// A measured snapshot `(ts_ms, depth)`.
pub type DepthSample = (i64, i64);

pub open spec fn sample_bucket(s: DepthSample, tf: int) -> int {
    bucket_start_s(s.0 as int, tf)
}

/// Some snapshot falls in bucket `k`.
pub open spec fn has_sample_in(samples: Seq<DepthSample>, tf: int, k: int) -> bool {
    exists|i: int| 0 <= i < samples.len() && sample_bucket(samples[i], tf) == k
}

/// Depth of the last snapshot of bucket `k`.
pub open spec fn last_depth(samples: Seq<DepthSample>, tf: int, k: int) -> Option<i64>
    decreases samples.len(),
{
    if samples.len() == 0 {
        None
    } else if sample_bucket(samples.last(), tf) == k {
        Some(samples.last().1)
    } else {
        last_depth(samples.drop_last(), tf, k)
    }
}

/// `r` is the depth series of the samples per `tf` bucket: ascending buckets, one per
/// bucket holding a sample, each with the depth of the bucket's last sample.
pub open spec fn series_ok(r: Seq<(i64, i64)>, samples: Seq<DepthSample>, tf: int) -> bool {
    &&& forall|a: int, b: int| 0 <= a < b < r.len() ==> r[a].0 < r[b].0
    &&& forall|j: int|
        0 <= j < r.len() ==> {
            &&& has_sample_in(samples, tf, (#[trigger] r[j]).0 as int)
            &&& Some(r[j].1) == last_depth(samples, tf, r[j].0 as int)
        }
    &&& forall|i: int|
        0 <= i < samples.len() ==> exists|j: int|
            0 <= j < r.len() && r[j].0 == sample_bucket(#[trigger] samples[i], tf)
}

/// A snapshot as the contracts see it: exchange time, bid levels, ask levels.
pub type SnapshotView = (i64, Seq<(i64, i64)>, Seq<(i64, i64)>);

/// Views of the snapshots.
pub open spec fn snapshot_views(s: Seq<(i64, OrderBook)>) -> Seq<SnapshotView> {
    s.map_values(|x: (i64, OrderBook)| (x.0, x.1.side(Side::Buy), x.1.side(Side::Sell)))
}

/// Depth of every snapshot within a band on a side.
pub open spec fn depth_samples(s: Seq<SnapshotView>, side: Side, band_e8: i64) -> Seq<DepthSample> {
    s.map_values(|x: SnapshotView| (x.0, view_depth(x.1, x.2, side, band_e8)))
}

/// Each snapshot measured: its time and its depth on `side` within `band_e8`.
pub fn depth_of_snapshots(s: &Vec<(i64, OrderBook)>, side: Side, band_e8: i64) -> (r: Vec<DepthSample>)
    requires
        forall|i: int| 0 <= i < s@.len() ==> (#[trigger] s@[i]).1.wf(),
    ensures
        r@ == depth_samples(snapshot_views(s@), side, band_e8),
{
    let mut out: Vec<DepthSample> = Vec::new();
    let mut i: usize = 0;
    while i < s.len()
        invariant
            i <= s@.len(),
            forall|i: int| 0 <= i < s@.len() ==> (#[trigger] s@[i]).1.wf(),
            out@ == depth_samples(snapshot_views(s@.subrange(0, i as int)), side, band_e8),
        decreases s@.len() - i,
    {
        let d = s[i].1.depth_within_e8(side, band_e8);
        out.push((s[i].0, d));
        assert(out@ =~= depth_samples(snapshot_views(s@.subrange(0, i as int + 1)), side, band_e8));
        i = i + 1;
    }
    assert(s@.subrange(0, s@.len() as int) =~= s@);
    out
}

/// Depth series of the snapshots `(ts_ms, book)` on `side` within `band_e8` (×1e8 of the
/// mid, see `OrderBook::depth_within_e8`): ascending bucket starts in seconds, one point per
/// `timeframe_ms` bucket that holds a snapshot, valued by the bucket's last snapshot;
/// `timeframe_ms ≤ 0` gives nothing.
pub fn compute(snapshots: &Vec<(i64, OrderBook)>, side: Side, band_e8: i64, timeframe_ms: i64) -> (r: Vec<(i64, i64)>)
    requires
        forall|i: int| 0 <= i < snapshots@.len() ==> (#[trigger] snapshots@[i]).1.wf(),
    ensures
        timeframe_ms <= 0 ==> r@.len() == 0,
        timeframe_ms > 0 ==> series_ok(r@, depth_samples(snapshot_views(snapshots@), side, band_e8), timeframe_ms as int),
{
    if timeframe_ms <= 0 {
        return Vec::new();
    }
    let samples = depth_of_snapshots(snapshots, side, band_e8);
    series_of_samples(&samples, timeframe_ms)
}

/// Per-bucket series of measured snapshots: ascending buckets, one point per bucket that
/// holds a sample, valued by the bucket's last sample; `timeframe_ms ≤ 0` gives nothing.
#[verifier::rlimit(40)]
pub fn series_of_samples(samples: &Vec<DepthSample>, timeframe_ms: i64) -> (r: Vec<(i64, i64)>)
    ensures
        timeframe_ms <= 0 ==> r@.len() == 0,
        timeframe_ms > 0 ==> series_ok(r@, samples@, timeframe_ms as int),
{
    if timeframe_ms <= 0 {
        return Vec::new();
    }
    let ghost tf = timeframe_ms as int;
    let mut out: Vec<(i64, i64)> = Vec::new();
    let mut i: usize = 0;
    while i < samples.len()
        invariant
            i <= samples@.len(),
            timeframe_ms > 0,
            tf == timeframe_ms as int,
            forall|a: int, b: int| 0 <= a < b < out@.len() ==> out@[a].0 < out@[b].0,
            forall|j: int|
                0 <= j < out@.len() ==> {
                    &&& has_sample_in(samples@.subrange(0, i as int), tf, (#[trigger] out@[j]).0 as int)
                    &&& Some(out@[j].1) == last_depth(
                        samples@.subrange(0, i as int),
                        tf,
                        out@[j].0 as int,
                    )
                },
            forall|w: int|
                0 <= w < i ==> exists|j: int|
                    0 <= j < out@.len() && out@[j].0 == sample_bucket(#[trigger] samples@[w], tf),
        decreases samples@.len() - i,
    {
        let (ts, depth) = samples[i];
        let k = bucket_index_to_seconds(ts, timeframe_ms);
        let ghost pre = samples@.subrange(0, i as int);
        let ghost post = samples@.subrange(0, i + 1);
        proof {
            assert(post.drop_last() =~= pre);
            assert(post.last() == samples@[i as int]);
        }
        let mut p: usize = 0;
        while p < out.len() && out[p].0 < k
            invariant
                p <= out@.len(),
                forall|q: int| 0 <= q < p ==> out@[q].0 < k,
            decreases out@.len() - p,
        {
            p = p + 1;
        }
        let ghost old_o = out@;
        if p < out.len() && out[p].0 == k {
            out.set(p, (k, depth));
        } else {
            out.insert(p, (k, depth));
        }
        proof {
            let ins = !(p < old_o.len() && old_o[p as int].0 == k);
            assert forall|j: int| 0 <= j < out@.len() implies {
                &&& has_sample_in(post, tf, (#[trigger] out@[j]).0 as int)
                &&& Some(out@[j].1) == last_depth(post, tf, out@[j].0 as int)
            } by {
                if j != p {
                    let jj = if ins && j > p {
                        j - 1
                    } else {
                        j
                    };
                    assert(out@[j] == old_o[jj]);
                    assert(old_o[jj].0 != k) by {
                        if ins && p < old_o.len() && jj > p {
                            assert(old_o[p as int].0 < old_o[jj].0);
                        }
                    }
                    let w = choose|w: int|
                        0 <= w < pre.len() && sample_bucket(pre[w], tf) == old_o[jj].0;
                    assert(post[w] == pre[w]);
                } else {
                    assert(post[i as int] == samples@[i as int]);
                }
            }
            assert forall|w: int| 0 <= w < i + 1 implies exists|j: int|
                0 <= j < out@.len() && out@[j].0 == sample_bucket(#[trigger] samples@[w], tf) by {
                if w < i {
                    let j = choose|j: int|
                        0 <= j < old_o.len() && old_o[j].0 == sample_bucket(samples@[w], tf);
                    if ins && j >= p {
                        assert(out@[j + 1] == old_o[j]);
                    } else {
                        assert(out@[j].0 == old_o[j].0);
                    }
                } else {
                    assert(out@[p as int].0 == k);
                }
            }
            assert forall|a: int, b: int| 0 <= a < b < out@.len() implies out@[a].0 < out@[b].0 by {
                if ins {
                    let a0 = if a < p {
                        a
                    } else {
                        a - 1
                    };
                    let b0 = if b < p {
                        b
                    } else {
                        b - 1
                    };
                    if a != p {
                        assert(out@[a] == old_o[a0]);
                    }
                    if b != p {
                        assert(out@[b] == old_o[b0]);
                    }
                } else {
                    assert(out@[a].0 == old_o[a].0);
                    assert(out@[b].0 == old_o[b].0);
                }
            }
        }
        i = i + 1;
    }
    assert(samples@.subrange(0, samples@.len() as int) =~= samples@);
    out
}

} // verus!
