//! The export is deterministic: the contract of each reducer admits a single result, so
//! the artifacts of a stream depend on the stream and the settings alone.

use vstd::prelude::*;

use crate::depth_series::{depth_samples, has_sample_in, last_depth, sample_bucket, series_ok, DepthSample, SnapshotView};
use crate::export_build::{
    artifact_ok, candle_bars, delta_pairs, depth_row_side, footprint_view, price_trades, priced_side_trades,
    side_trades, texts, TradeRow,
};
use crate::export_collect::{export_result_ok, has_md, key_lt, lemma_text_trichotomy, venue_of_name};
use crate::export_rows::{DepthSeriesRow, ExportArtifact};
use crate::market::Venue;
use crate::export::{
    bucket_close, bucket_high, bucket_low, bucket_open, bucket_volume, has_trade_in, ohlcv_ok, trade_bucket,
    OhlcvBar, PriceTrade,
};
use crate::orderflow::{
    bar_view_ok, bin_ok, bins_ok, cum_ok, cum_series, deltas_ok, has_side_trade_in, lemma_sorted_same_values,
    priced_bucket, side_trade_bucket, PriceBin, PricedSideTrade, SideTrade,
};

verus! {

/// Only one candle series meets `ohlcv_ok` for given trades and timeframe.
pub proof fn law_candles_unique(r1: Seq<OhlcvBar>, r2: Seq<OhlcvBar>, trades: Seq<PriceTrade>, tf: int)
    requires
        ohlcv_ok(r1, trades, tf),
        ohlcv_ok(r2, trades, tf),
    ensures
        r1 == r2,
{
    let k1 = r1.map_values(|b: OhlcvBar| b.time_s as int);
    let k2 = r2.map_values(|b: OhlcvBar| b.time_s as int);
    assert forall|i: int| 0 <= i < k1.len() implies k2.contains(#[trigger] k1[i]) by {
        assert(has_trade_in(trades, tf, r1[i].time_s as int));
        let w = choose|w: int| 0 <= w < trades.len() && trade_bucket(trades[w], tf) == r1[i].time_s as int;
        let j = choose|j: int| 0 <= j < r2.len() && r2[j].time_s == trade_bucket(trades[w], tf);
        assert(k2[j] == k1[i]);
    }
    assert forall|i: int| 0 <= i < k2.len() implies k1.contains(#[trigger] k2[i]) by {
        assert(has_trade_in(trades, tf, r2[i].time_s as int));
        let w = choose|w: int| 0 <= w < trades.len() && trade_bucket(trades[w], tf) == r2[i].time_s as int;
        let j = choose|j: int| 0 <= j < r1.len() && r1[j].time_s == trade_bucket(trades[w], tf);
        assert(k1[j] == k2[i]);
    }
    assert forall|a: int, b: int| 0 <= a < b < k1.len() implies k1[a] < k1[b] by {
        assert(r1[a].time_s < r1[b].time_s);
    }
    assert forall|a: int, b: int| 0 <= a < b < k2.len() implies k2[a] < k2[b] by {
        assert(r2[a].time_s < r2[b].time_s);
    }
    lemma_sorted_same_values(k1, k2);
    assert(k1.len() == r1.len() && k2.len() == r2.len());
    assert(r1.len() == r2.len());
    assert forall|j: int| 0 <= j < r1.len() implies r1[j] == r2[j] by {
        assert(k1[j] == k2[j]);
        let k = r1[j].time_s as int;
        assert(Some(r1[j].open) == bucket_open(trades, tf, k) && Some(r2[j].open) == bucket_open(trades, tf, k));
        assert(Some(r1[j].high) == bucket_high(trades, tf, k) && Some(r2[j].high) == bucket_high(trades, tf, k));
        assert(Some(r1[j].low) == bucket_low(trades, tf, k) && Some(r2[j].low) == bucket_low(trades, tf, k));
        assert(Some(r1[j].close) == bucket_close(trades, tf, k) && Some(r2[j].close) == bucket_close(trades, tf, k));
        assert(r1[j].volume == bucket_volume(trades, tf, k) && r2[j].volume == bucket_volume(trades, tf, k));
    }
    assert(r1 =~= r2);
}

/// Only one footprint-delta series meets `deltas_ok` for given trades and timeframe.
pub proof fn law_footprint_delta_unique(r1: Seq<(i64, i64)>, r2: Seq<(i64, i64)>, trades: Seq<SideTrade>, tf: int)
    requires
        deltas_ok(r1, trades, tf),
        deltas_ok(r2, trades, tf),
    ensures
        r1 == r2,
{
    let k1 = r1.map_values(|p: (i64, i64)| p.0 as int);
    let k2 = r2.map_values(|p: (i64, i64)| p.0 as int);
    assert forall|i: int| 0 <= i < k1.len() implies k2.contains(#[trigger] k1[i]) by {
        assert(has_side_trade_in(trades, tf, r1[i].0 as int));
        let w = choose|w: int| 0 <= w < trades.len() && side_trade_bucket(trades[w], tf) == r1[i].0 as int;
        let j = choose|j: int| 0 <= j < r2.len() && r2[j].0 == side_trade_bucket(trades[w], tf);
        assert(k2[j] == k1[i]);
    }
    assert forall|i: int| 0 <= i < k2.len() implies k1.contains(#[trigger] k2[i]) by {
        assert(has_side_trade_in(trades, tf, r2[i].0 as int));
        let w = choose|w: int| 0 <= w < trades.len() && side_trade_bucket(trades[w], tf) == r2[i].0 as int;
        let j = choose|j: int| 0 <= j < r1.len() && r1[j].0 == side_trade_bucket(trades[w], tf);
        assert(k1[j] == k2[i]);
    }
    assert forall|a: int, b: int| 0 <= a < b < k1.len() implies k1[a] < k1[b] by {
        assert(r1[a].0 < r1[b].0);
    }
    assert forall|a: int, b: int| 0 <= a < b < k2.len() implies k2[a] < k2[b] by {
        assert(r2[a].0 < r2[b].0);
    }
    lemma_sorted_same_values(k1, k2);
    assert(k1.len() == r1.len() && k2.len() == r2.len());
    assert(r1.len() == r2.len());
    assert forall|j: int| 0 <= j < r1.len() implies r1[j] == r2[j] by {
        assert(k1[j] == k2[j]);
        assert(has_side_trade_in(trades, tf, r1[j].0 as int));
        assert(has_side_trade_in(trades, tf, r2[j].0 as int));
    }
    assert(r1 =~= r2);
}

/// Only one depth series meets `series_ok` for given samples and timeframe.
pub proof fn law_depth_series_unique(r1: Seq<(i64, i64)>, r2: Seq<(i64, i64)>, samples: Seq<DepthSample>, tf: int)
    requires
        series_ok(r1, samples, tf),
        series_ok(r2, samples, tf),
    ensures
        r1 == r2,
{
    let k1 = r1.map_values(|p: (i64, i64)| p.0 as int);
    let k2 = r2.map_values(|p: (i64, i64)| p.0 as int);
    assert forall|i: int| 0 <= i < k1.len() implies k2.contains(#[trigger] k1[i]) by {
        assert(has_sample_in(samples, tf, r1[i].0 as int));
        let w = choose|w: int| 0 <= w < samples.len() && sample_bucket(samples[w], tf) == r1[i].0 as int;
        let j = choose|j: int| 0 <= j < r2.len() && r2[j].0 == sample_bucket(samples[w], tf);
        assert(k2[j] == k1[i]);
    }
    assert forall|i: int| 0 <= i < k2.len() implies k1.contains(#[trigger] k2[i]) by {
        assert(has_sample_in(samples, tf, r2[i].0 as int));
        let w = choose|w: int| 0 <= w < samples.len() && sample_bucket(samples[w], tf) == r2[i].0 as int;
        let j = choose|j: int| 0 <= j < r1.len() && r1[j].0 == sample_bucket(samples[w], tf);
        assert(k1[j] == k2[i]);
    }
    assert forall|a: int, b: int| 0 <= a < b < k1.len() implies k1[a] < k1[b] by {
        assert(r1[a].0 < r1[b].0);
    }
    assert forall|a: int, b: int| 0 <= a < b < k2.len() implies k2[a] < k2[b] by {
        assert(r2[a].0 < r2[b].0);
    }
    lemma_sorted_same_values(k1, k2);
    assert(k1.len() == r1.len() && k2.len() == r2.len());
    assert(r1.len() == r2.len());
    assert forall|j: int| 0 <= j < r1.len() implies r1[j] == r2[j] by {
        assert(k1[j] == k2[j]);
        assert(Some(r1[j].1) == last_depth(samples, tf, r1[j].0 as int));
        assert(Some(r2[j].1) == last_depth(samples, tf, r2[j].0 as int));
    }
    assert(r1 =~= r2);
}

/// The bins of a bar of one footprint are those of the bar of the same bucket in another.
proof fn lemma_bar_bins_same(v1: Seq<(i64, Seq<PriceBin>)>, v2: Seq<(i64, Seq<PriceBin>)>, trades: Seq<PricedSideTrade>, tf: int, j: int, j2: int)
    requires
        bins_ok(v1, trades, tf),
        bins_ok(v2, trades, tf),
        0 <= j < v1.len(),
        0 <= j2 < v2.len(),
        v1[j].0 == v2[j2].0,
    ensures
        v1[j].1 == v2[j2].1,
{
    let t = v1[j].0;
    let b1 = v1[j].1;
    let b2 = v2[j2].1;
    assert(bar_view_ok(v1[j].0, b1, trades, tf));
    assert(bar_view_ok(v2[j2].0, b2, trades, tf));
    let p1 = b1.map_values(|b: PriceBin| b.price as int);
    let p2 = b2.map_values(|b: PriceBin| b.price as int);
    assert forall|q: int| 0 <= q < p1.len() implies p2.contains(#[trigger] p1[q]) by {
        assert(bin_ok(b1[q], t as int, trades, tf));
        let w = choose|w: int| 0 <= w < trades.len() && priced_bucket(trades[w], tf) == t as int && trades[w].1 == b1[q].price as int;
        let (jj, qq) = choose|jj: int, qq: int| 0 <= jj < v2.len() && 0 <= qq < v2[jj].1.len()
            && v2[jj].0 == priced_bucket(trades[w], tf) && v2[jj].1[qq].price == trades[w].1;
        if jj < j2 {
            assert(v2[jj].0 < v2[j2].0);
        } else if jj > j2 {
            assert(v2[j2].0 < v2[jj].0);
        }
        assert(p2[qq] == p1[q]);
    }
    assert forall|q: int| 0 <= q < p2.len() implies p1.contains(#[trigger] p2[q]) by {
        assert(bin_ok(b2[q], t as int, trades, tf));
        let w = choose|w: int| 0 <= w < trades.len() && priced_bucket(trades[w], tf) == t as int && trades[w].1 == b2[q].price as int;
        let (jj, qq) = choose|jj: int, qq: int| 0 <= jj < v1.len() && 0 <= qq < v1[jj].1.len()
            && v1[jj].0 == priced_bucket(trades[w], tf) && v1[jj].1[qq].price == trades[w].1;
        if jj < j {
            assert(v1[jj].0 < v1[j].0);
        } else if jj > j {
            assert(v1[j].0 < v1[jj].0);
        }
        assert(p1[qq] == p2[q]);
    }
    assert forall|a: int, b: int| 0 <= a < b < p1.len() implies p1[a] < p1[b] by {
        assert(b1[a].price < b1[b].price);
    }
    assert forall|a: int, b: int| 0 <= a < b < p2.len() implies p2[a] < p2[b] by {
        assert(b2[a].price < b2[b].price);
    }
    lemma_sorted_same_values(p1, p2);
    assert(p1.len() == b1.len() && p2.len() == b2.len());
    assert forall|q: int| 0 <= q < b1.len() implies b1[q] == b2[q] by {
        assert(p1[q] == p2[q]);
        assert(bin_ok(b1[q], t as int, trades, tf));
        assert(bin_ok(b2[q], t as int, trades, tf));
    }
    assert(b1 =~= b2);
}

/// Only one footprint (bars by bucket, bins by price) meets `bins_ok` for given trades and
/// timeframe.
pub proof fn law_footprint_bins_unique(v1: Seq<(i64, Seq<PriceBin>)>, v2: Seq<(i64, Seq<PriceBin>)>, trades: Seq<PricedSideTrade>, tf: int)
    requires
        bins_ok(v1, trades, tf),
        bins_ok(v2, trades, tf),
    ensures
        v1 == v2,
{
    let k1 = v1.map_values(|x: (i64, Seq<PriceBin>)| x.0 as int);
    let k2 = v2.map_values(|x: (i64, Seq<PriceBin>)| x.0 as int);
    assert forall|i: int| 0 <= i < k1.len() implies k2.contains(#[trigger] k1[i]) by {
        assert(bar_view_ok(v1[i].0, v1[i].1, trades, tf));
        assert(bin_ok(v1[i].1[0], v1[i].0 as int, trades, tf));
        let w = choose|w: int| 0 <= w < trades.len() && priced_bucket(trades[w], tf) == v1[i].0 as int
            && trades[w].1 == v1[i].1[0].price as int;
        let (j, q) = choose|j: int, q: int| 0 <= j < v2.len() && 0 <= q < v2[j].1.len()
            && v2[j].0 == priced_bucket(trades[w], tf) && v2[j].1[q].price == trades[w].1;
        assert(k2[j] == k1[i]);
    }
    assert forall|i: int| 0 <= i < k2.len() implies k1.contains(#[trigger] k2[i]) by {
        assert(bar_view_ok(v2[i].0, v2[i].1, trades, tf));
        assert(bin_ok(v2[i].1[0], v2[i].0 as int, trades, tf));
        let w = choose|w: int| 0 <= w < trades.len() && priced_bucket(trades[w], tf) == v2[i].0 as int
            && trades[w].1 == v2[i].1[0].price as int;
        let (j, q) = choose|j: int, q: int| 0 <= j < v1.len() && 0 <= q < v1[j].1.len()
            && v1[j].0 == priced_bucket(trades[w], tf) && v1[j].1[q].price == trades[w].1;
        assert(k1[j] == k2[i]);
    }
    assert forall|a: int, b: int| 0 <= a < b < k1.len() implies k1[a] < k1[b] by {
        assert(v1[a].0 < v1[b].0);
    }
    assert forall|a: int, b: int| 0 <= a < b < k2.len() implies k2[a] < k2[b] by {
        assert(v2[a].0 < v2[b].0);
    }
    lemma_sorted_same_values(k1, k2);
    assert(k1.len() == v1.len() && k2.len() == v2.len());
    assert forall|j: int| 0 <= j < v1.len() implies v1[j] == v2[j] by {
        assert(k1[j] == k2[j]);
        lemma_bar_bins_same(v1, v2, trades, tf, j, j);
    }
    assert(v1 =~= v2);
}

/// Everything an artifact holds, as values.
#[verifier::ext_equal]
pub struct ArtifactView {
    pub schema_version: u32,
    pub venue: Seq<char>,
    pub symbol: Seq<char>,
    pub timeframe_ms: i64,
    pub epoch_ids: Seq<Seq<char>>,
    pub first_wall_ms: i64,
    pub last_wall_ms: i64,
    pub ohlcv: Seq<OhlcvBar>,
    pub footprint_delta: Seq<(i64, i64)>,
    pub cumulative_delta: Seq<(i64, i64)>,
    pub footprint_bins: Seq<(i64, Seq<PriceBin>)>,
    pub depth_series: Seq<(Seq<char>, i64, Seq<(i64, i64)>)>,
}

/// Side text, band and points of each depth series row.
pub open spec fn depth_rows_view(r: Seq<DepthSeriesRow>) -> Seq<(Seq<char>, i64, Seq<(i64, i64)>)> {
    r.map_values(|x: DepthSeriesRow| (x.side@, x.band_pct_e8, delta_pairs(x.series@)))
}

/// The artifact as values.
pub open spec fn artifact_view(a: ExportArtifact) -> ArtifactView {
    ArtifactView {
        schema_version: a.schema_version,
        venue: a.venue@,
        symbol: a.symbol@,
        timeframe_ms: a.timeframe_ms,
        epoch_ids: texts(a.epoch_ids@),
        first_wall_ms: a.first_wall_ms,
        last_wall_ms: a.last_wall_ms,
        ohlcv: candle_bars(a.ohlcv@),
        footprint_delta: delta_pairs(a.footprint_delta@),
        cumulative_delta: delta_pairs(a.cumulative_delta@),
        footprint_bins: footprint_view(a.footprint_bins@),
        depth_series: depth_rows_view(a.depth_series@),
    }
}

/// Only one running-delta series meets `cum_ok`.
proof fn lemma_cum_unique(r1: Seq<(i64, i64)>, r2: Seq<(i64, i64)>, trades: Seq<SideTrade>, tf: int)
    requires
        cum_ok(r1, trades, tf),
        cum_ok(r2, trades, tf),
    ensures
        r1 == r2,
{
    assert forall|j: int| 0 <= j < r1.len() implies r1[j] == r2[j] by {
        assert(r1[j].0 == cum_series(trades, tf)[j].0 && r2[j].0 == cum_series(trades, tf)[j].0);
    }
    assert(r1 =~= r2);
}

/// The artifact of an instrument is fixed by its inputs: two artifacts that both meet
/// `artifact_ok` for the same instrument, epochs, timeframe, bands, trades, snapshots and
/// window hold the same values.
pub proof fn law_artifact_unique(
    a1: ExportArtifact,
    a2: ExportArtifact,
    venue: Venue,
    symbol: Seq<char>,
    epochs: Seq<Seq<char>>,
    timeframe_ms: i64,
    bands: Seq<i64>,
    trades: Seq<TradeRow>,
    snaps: Seq<SnapshotView>,
    first_wall_ms: i64,
    last_wall_ms: i64,
)
    requires
        artifact_ok(a1, venue, symbol, epochs, timeframe_ms, bands, trades, snaps, first_wall_ms, last_wall_ms),
        artifact_ok(a2, venue, symbol, epochs, timeframe_ms, bands, trades, snaps, first_wall_ms, last_wall_ms),
    ensures
        artifact_view(a1) == artifact_view(a2),
{
    let tf = timeframe_ms as int;
    if timeframe_ms <= 0 {
        assert(candle_bars(a1.ohlcv@) =~= candle_bars(a2.ohlcv@));
        assert(delta_pairs(a1.footprint_delta@) =~= delta_pairs(a2.footprint_delta@));
        assert(delta_pairs(a1.cumulative_delta@) =~= delta_pairs(a2.cumulative_delta@));
        assert(footprint_view(a1.footprint_bins@) =~= footprint_view(a2.footprint_bins@));
    } else {
        law_candles_unique(candle_bars(a1.ohlcv@), candle_bars(a2.ohlcv@), price_trades(trades), tf);
        law_footprint_delta_unique(delta_pairs(a1.footprint_delta@), delta_pairs(a2.footprint_delta@), side_trades(trades), tf);
        lemma_cum_unique(delta_pairs(a1.cumulative_delta@), delta_pairs(a2.cumulative_delta@), side_trades(trades), tf);
        law_footprint_bins_unique(footprint_view(a1.footprint_bins@), footprint_view(a2.footprint_bins@), priced_side_trades(trades), tf);
    }
    let d1 = depth_rows_view(a1.depth_series@);
    let d2 = depth_rows_view(a2.depth_series@);
    assert forall|k: int| 0 <= k < d1.len() implies d1[k] == d2[k] by {
        let row1 = a1.depth_series@[k];
        let row2 = a2.depth_series@[k];
        let side = depth_row_side(k);
        let band = bands[k / 2];
        if timeframe_ms <= 0 {
            assert(delta_pairs(row1.series@) =~= delta_pairs(row2.series@));
        } else {
            law_depth_series_unique(delta_pairs(row1.series@), delta_pairs(row2.series@), depth_samples(snaps, side, band), tf);
        }
    }
    assert(d1 =~= d2);
    assert(artifact_view(a1) =~= artifact_view(a2));
}

proof fn lemma_key_lt_strict(x: (Venue, Seq<char>), y: (Venue, Seq<char>))
    ensures
        !(key_lt(x, y) && key_lt(y, x)),
        !key_lt(x, x),
{
    lemma_text_trichotomy(x.1, y.1);
    lemma_text_trichotomy(x.1, x.1);
}

/// Instrument keys in strictly ascending order that hold the same keys are equal.
proof fn lemma_sorted_same_keys(a: Seq<(Venue, Seq<char>)>, b: Seq<(Venue, Seq<char>)>)
    requires
        forall|i: int, j: int| 0 <= i < j < a.len() ==> key_lt(a[i], a[j]),
        forall|i: int, j: int| 0 <= i < j < b.len() ==> key_lt(b[i], b[j]),
        forall|i: int| 0 <= i < a.len() ==> b.contains(#[trigger] a[i]),
        forall|j: int| 0 <= j < b.len() ==> a.contains(#[trigger] b[j]),
    ensures
        a == b,
    decreases a.len(),
{
    if a.len() == 0 {
        if b.len() > 0 {
            assert(a.contains(b[0]));
        }
        assert(a =~= b);
    } else {
        assert(b.contains(a[0]));
        let k = choose|k: int| 0 <= k < b.len() && b[k] == a[0];
        assert(a.contains(b[0]));
        let l = choose|l: int| 0 <= l < a.len() && a[l] == b[0];
        assert(a[0] == b[0]) by {
            if k > 0 && l > 0 {
                assert(key_lt(b[0], b[k]));
                assert(key_lt(a[0], a[l]));
                lemma_key_lt_strict(a[0], b[0]);
            }
        }
        let a1 = a.drop_first();
        let b1 = b.drop_first();
        assert forall|i: int| 0 <= i < a1.len() implies b1.contains(#[trigger] a1[i]) by {
            assert(a1[i] == a[i + 1]);
            assert(b.contains(a[i + 1]));
            let w = choose|w: int| 0 <= w < b.len() && b[w] == a[i + 1];
            assert(key_lt(a[0], a[i + 1]));
            lemma_key_lt_strict(a[0], a[0]);
            assert(w != 0);
            assert(b1[w - 1] == b[w]);
        }
        assert forall|j: int| 0 <= j < b1.len() implies a1.contains(#[trigger] b1[j]) by {
            assert(b1[j] == b[j + 1]);
            assert(a.contains(b[j + 1]));
            let w = choose|w: int| 0 <= w < a.len() && a[w] == b[j + 1];
            assert(key_lt(b[0], b[j + 1]));
            lemma_key_lt_strict(b[0], b[0]);
            assert(w != 0);
            assert(a1[w - 1] == a[w]);
        }
        lemma_sorted_same_keys(a1, b1);
        assert forall|i: int| 0 <= i < a.len() implies a[i] == b[i] by {
            if i > 0 {
                assert(a[i] == a1[i - 1] && b[i] == b1[i - 1]);
            }
        }
        assert(a =~= b);
    }
}

/// Names and artifact values of an export, in order.
pub open spec fn export_view(r: Seq<(String, String, ExportArtifact)>) -> Seq<(Seq<char>, Seq<char>, ArtifactView)> {
    r.map_values(|x: (String, String, ExportArtifact)| (x.0@, x.1@, artifact_view(x.2)))
}

/// The export is deterministic: two results that both meet `export_result_ok` for the same
/// stream, epochs, timeframe and bands name the same instruments in the same order and hold
/// the same artifacts; a stream without market data exports nothing.
pub proof fn law_export_deterministic(
    r1: Seq<(String, String, ExportArtifact)>,
    r2: Seq<(String, String, ExportArtifact)>,
    evs: Seq<crate::market::Event>,
    epochs: Seq<Seq<char>>,
    timeframe_ms: i64,
    bands: Seq<i64>,
)
    requires
        export_result_ok(r1, evs, epochs, timeframe_ms, bands),
        export_result_ok(r2, evs, epochs, timeframe_ms, bands),
    ensures
        export_view(r1) == export_view(r2),
        (forall|k: (Venue, Seq<char>)| !has_md(evs, k)) ==> r1.len() == 0,
{
    let kk1 = r1.map_values(|x: (String, String, ExportArtifact)| (venue_of_name(x.0@), x.1@));
    let kk2 = r2.map_values(|x: (String, String, ExportArtifact)| (venue_of_name(x.0@), x.1@));
    assert forall|i: int| 0 <= i < kk1.len() implies kk2.contains(#[trigger] kk1[i]) by {
        let k = kk1[i];
        assert(exists|q: int| 0 <= q < r1.len() && (venue_of_name(r1[q].0@), r1[q].1@) == k);
        assert(has_md(evs, k));
        let j = choose|j: int| 0 <= j < r2.len() && (venue_of_name(r2[j].0@), r2[j].1@) == k;
        assert(kk2[j] == k);
    }
    assert forall|i: int| 0 <= i < kk2.len() implies kk1.contains(#[trigger] kk2[i]) by {
        let k = kk2[i];
        assert(exists|q: int| 0 <= q < r2.len() && (venue_of_name(r2[q].0@), r2[q].1@) == k);
        assert(has_md(evs, k));
        let j = choose|j: int| 0 <= j < r1.len() && (venue_of_name(r1[j].0@), r1[j].1@) == k;
        assert(kk1[j] == k);
    }
    assert forall|i: int, j: int| 0 <= i < j < kk1.len() implies key_lt(kk1[i], kk1[j]) by {
        assert(key_lt((venue_of_name(r1[i].0@), r1[i].1@), (venue_of_name(r1[j].0@), r1[j].1@)));
    }
    assert forall|i: int, j: int| 0 <= i < j < kk2.len() implies key_lt(kk2[i], kk2[j]) by {
        assert(key_lt((venue_of_name(r2[i].0@), r2[i].1@), (venue_of_name(r2[j].0@), r2[j].1@)));
    }
    lemma_sorted_same_keys(kk1, kk2);
    assert(kk1.len() == r1.len() && kk2.len() == r2.len());
    let first = if evs.len() > 0 { evs[0].ts_wall_ms } else { 0 };
    let last = if evs.len() > 0 { evs.last().ts_wall_ms } else { 0 };
    let v1 = export_view(r1);
    let v2 = export_view(r2);
    assert forall|i: int| 0 <= i < v1.len() implies v1[i] == v2[i] by {
        assert(kk1[i] == kk2[i]);
        let key = kk1[i];
        assert(r1[i].0@ == crate::export_collect::venue_name(key.0));
        assert(r2[i].0@ == crate::export_collect::venue_name(key.0));
        law_artifact_unique(r1[i].2, r2[i].2, key.0, key.1, epochs, timeframe_ms, bands,
            crate::export_collect::trades_of(evs, key), crate::export_collect::snapshots_of(evs, key), first, last);
    }
    assert(v1 =~= v2);
    if r1.len() > 0 {
        let k = kk1[0];
        assert(exists|q: int| 0 <= q < r1.len() && (venue_of_name(r1[q].0@), r1[q].1@) == k);
        assert(has_md(evs, k));
    }
}

} // verus!
