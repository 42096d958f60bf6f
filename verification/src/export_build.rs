//! Building the order-flow export of one instrument from its trades and book snapshots:
//! candles, footprint delta, running delta, footprint bins and depth series per band and
//! side, each by the reducer of its own module.

use vstd::prelude::*;

use crate::depth_series::{compute, depth_samples, series_ok, snapshot_views, SnapshotView};
use crate::export::{ohlcv_bars, ohlcv_ok, volumes_fit, OhlcvBar, PriceTrade};
use crate::export_rows::{
    delta_rows, side_slug, venue_slug, DeltaRow, DepthSeriesRow, ExportArtifact, FootprintBarRow,
    OhlcvRow, PriceBinRow, EXPORT_SCHEMA_VERSION,
};
use crate::market::{Side, Venue};
use crate::orderflow::{
    bins_fit, bins_ok, cum_fits, cum_ok, cumulative_delta, deltas_fit, deltas_ok, footprint_bins,
    footprint_delta, PriceBin, PricedSideTrade, SideTrade,
};
use crate::sim::book::OrderBook;

verus! {

/// A trade of the instrument as the export reads it (exchange time).
#[derive(Clone, Copy, Debug, PartialEq, Eq, Structural)]
pub struct TradeRow {
    pub ts_ms: i64,
    pub price: i64,
    pub size: i64,
    pub side: Side,
}

/// What the export collected for one instrument: its trades and its book snapshots, in
/// stream order.
#[derive(Clone, Debug)]
pub struct InstrumentBucket {
    pub venue: Venue,
    pub symbol: String,
    pub trades: Vec<TradeRow>,
    pub snapshots: Vec<(i64, OrderBook)>,
}

/// Trades as the candle reducer reads them.
pub open spec fn price_trades(t: Seq<TradeRow>) -> Seq<PriceTrade> {
    t.map_values(|r: TradeRow| (r.ts_ms, r.price, r.size))
}

/// Trades as the delta reducers read them.
pub open spec fn side_trades(t: Seq<TradeRow>) -> Seq<SideTrade> {
    t.map_values(|r: TradeRow| (r.ts_ms, r.side, r.size))
}

/// Trades as the footprint reducer reads them.
pub open spec fn priced_side_trades(t: Seq<TradeRow>) -> Seq<PricedSideTrade> {
    t.map_values(|r: TradeRow| (r.ts_ms, r.price, r.side, r.size))
}

/// The artifact of an instrument: the given identity and window, and each series the
/// reducer's result on the instrument's trades and snapshots (see `build_artifact`).
pub open spec fn artifact_ok(
    r: ExportArtifact,
    venue: Venue,
    symbol: Seq<char>,
    epochs: Seq<Seq<char>>,
    timeframe_ms: i64,
    bands: Seq<i64>,
    trades: Seq<TradeRow>,
    snaps: Seq<SnapshotView>,
    first_wall_ms: i64,
    last_wall_ms: i64,
) -> bool {
    &&& r.schema_version == EXPORT_SCHEMA_VERSION
    &&& r.venue@ == crate::export_collect::venue_name(venue)
    &&& r.symbol@ == symbol
    &&& r.timeframe_ms == timeframe_ms
    &&& texts(r.epoch_ids@) == epochs
    &&& r.first_wall_ms == first_wall_ms
    &&& r.last_wall_ms == last_wall_ms
    &&& timeframe_ms <= 0 ==> r.ohlcv@.len() == 0 && r.footprint_delta@.len() == 0 && r.cumulative_delta@.len() == 0
        && r.footprint_bins@.len() == 0
    &&& timeframe_ms > 0 ==> {
        &&& ohlcv_ok(candle_bars(r.ohlcv@), price_trades(trades), timeframe_ms as int)
        &&& deltas_ok(delta_pairs(r.footprint_delta@), side_trades(trades), timeframe_ms as int)
        &&& cum_ok(delta_pairs(r.cumulative_delta@), side_trades(trades), timeframe_ms as int)
        &&& bins_ok(footprint_view(r.footprint_bins@), priced_side_trades(trades), timeframe_ms as int)
    }
    &&& r.depth_series@.len() == 2 * bands.len()
    &&& forall|k: int| 0 <= k < r.depth_series@.len() ==> {
        let row = #[trigger] r.depth_series@[k];
        let side = depth_row_side(k);
        let band = bands[k / 2];
        &&& row.side@ == (if k % 2 == 0 { "bid"@ } else { "ask"@ })
        &&& row.band_pct_e8 == band
        &&& (timeframe_ms <= 0 ==> row.series@.len() == 0)
        &&& (timeframe_ms > 0 ==> series_ok(delta_pairs(row.series@), depth_samples(snaps, side, band), timeframe_ms as int))
    }
}

/// The reducers' sums stay inside `i64` on these trades.
pub open spec fn export_inputs_fit(t: Seq<TradeRow>, tf: int) -> bool {
    &&& volumes_fit(price_trades(t), tf)
    &&& deltas_fit(side_trades(t), tf)
    &&& cum_fits(side_trades(t), tf)
    &&& bins_fit(priced_side_trades(t), tf)
}

/// Candles of the rows.
pub open spec fn candle_bars(r: Seq<OhlcvRow>) -> Seq<OhlcvBar> {
    r.map_values(|x: OhlcvRow| OhlcvBar { time_s: x.time_s, open: x.open, high: x.high, low: x.low, close: x.close, volume: x.volume })
}

/// Pairs of the rows.
pub open spec fn delta_pairs(r: Seq<DeltaRow>) -> Seq<(i64, i64)> {
    r.map_values(|x: DeltaRow| (x.time_s, x.value))
}

/// Bins of a bin row.
pub open spec fn bin_of_row(b: PriceBinRow) -> PriceBin {
    PriceBin { price: b.price, buy_vol: b.buy_vol, sell_vol: b.sell_vol, delta: b.delta }
}

/// Bars of the footprint rows.
pub open spec fn footprint_view(r: Seq<FootprintBarRow>) -> Seq<(i64, Seq<PriceBin>)> {
    r.map_values(|x: FootprintBarRow| (x.time_s, x.bins@.map_values(|b: PriceBinRow| bin_of_row(b))))
}

/// Text of a list of strings.
pub open spec fn texts(v: Seq<String>) -> Seq<Seq<char>> {
    v.map_values(|s: String| s@)
}

/// Side of the depth series row `k`: bid then ask for every band.
pub open spec fn depth_row_side(k: int) -> Side {
    if k % 2 == 0 { Side::Buy } else { Side::Sell }
}

fn copy_texts(v: &Vec<String>) -> (r: Vec<String>)
    ensures
        texts(r@) == texts(v@),
{
    let mut out: Vec<String> = Vec::new();
    let mut i: usize = 0;
    while i < v.len()
        invariant
            i <= v@.len(),
            out@.len() == i,
            forall|q: int| 0 <= q < i ==> (#[trigger] out@[q])@ == v@[q]@,
        decreases v@.len() - i,
    {
        let c = v[i].as_str().to_owned();
        out.push(c);
        i = i + 1;
    }
    assert(texts(out@) =~= texts(v@));
    out
}

fn reducer_inputs(t: &Vec<TradeRow>) -> (r: (Vec<PriceTrade>, Vec<SideTrade>, Vec<PricedSideTrade>))
    ensures
        r.0@ == price_trades(t@),
        r.1@ == side_trades(t@),
        r.2@ == priced_side_trades(t@),
{
    let mut a: Vec<PriceTrade> = Vec::new();
    let mut b: Vec<SideTrade> = Vec::new();
    let mut c: Vec<PricedSideTrade> = Vec::new();
    let mut i: usize = 0;
    while i < t.len()
        invariant
            i <= t@.len(),
            a@ == price_trades(t@.subrange(0, i as int)),
            b@ == side_trades(t@.subrange(0, i as int)),
            c@ == priced_side_trades(t@.subrange(0, i as int)),
        decreases t@.len() - i,
    {
        let x = t[i];
        a.push((x.ts_ms, x.price, x.size));
        b.push((x.ts_ms, x.side, x.size));
        c.push((x.ts_ms, x.price, x.side, x.size));
        proof {
            let pre = t@.subrange(0, i as int + 1);
            assert(pre =~= t@.subrange(0, i as int).push(x));
            assert(a@ =~= price_trades(pre));
            assert(b@ =~= side_trades(pre));
            assert(c@ =~= priced_side_trades(pre));
        }
        i = i + 1;
    }
    assert(t@.subrange(0, t@.len() as int) =~= t@);
    (a, b, c)
}

/// The export artifact of one instrument: candles, footprint delta, running delta and
/// footprint bins of its trades per `timeframe_ms` bucket, and for every band (in order)
/// the bid then the ask depth series of its snapshots; the window's bounds and epochs as
/// given. A timeframe ≤ 0 gives empty series.
pub fn build_artifact(
    venue: Venue,
    symbol: &str,
    epoch_ids: &Vec<String>,
    timeframe_ms: i64,
    bands_e8: &Vec<i64>,
    bucket: &InstrumentBucket,
    first_wall_ms: i64,
    last_wall_ms: i64,
) -> (r: ExportArtifact)
    requires
        timeframe_ms > 0 ==> export_inputs_fit(bucket.trades@, timeframe_ms as int),
        forall|i: int| 0 <= i < bucket.snapshots@.len() ==> (#[trigger] bucket.snapshots@[i]).1.wf(),
        2 * bands_e8@.len() <= usize::MAX,
    ensures
        artifact_ok(r, venue, symbol@, texts(epoch_ids@), timeframe_ms, bands_e8@, bucket.trades@,
            snapshot_views(bucket.snapshots@), first_wall_ms, last_wall_ms),
{
    let ghost tf = timeframe_ms as int;
    let (pt, st, pst) = reducer_inputs(&bucket.trades);

    let bars = ohlcv_bars(&pt, timeframe_ms);
    let mut ohlcv: Vec<OhlcvRow> = Vec::new();
    let mut i: usize = 0;
    while i < bars.len()
        invariant
            i <= bars@.len(),
            ohlcv@.len() == i,
            forall|q: int| 0 <= q < i ==> {
                let x = #[trigger] ohlcv@[q];
                OhlcvBar { time_s: x.time_s, open: x.open, high: x.high, low: x.low, close: x.close, volume: x.volume }
                    == bars@[q]
            },
        decreases bars@.len() - i,
    {
        let b = bars[i];
        ohlcv.push(OhlcvRow { time_s: b.time_s, open: b.open, high: b.high, low: b.low, close: b.close, volume: b.volume });
        i = i + 1;
    }
    assert(candle_bars(ohlcv@) =~= bars@);

    let fd = footprint_delta(&st, timeframe_ms);
    let footprint_rows = delta_rows(&fd);
    assert(delta_pairs(footprint_rows@) =~= fd@);
    let cd = cumulative_delta(&st, timeframe_ms);
    let cumulative_rows = delta_rows(&cd);
    assert(delta_pairs(cumulative_rows@) =~= cd@);

    let fb = footprint_bins(&pst, timeframe_ms);
    let mut bin_rows: Vec<FootprintBarRow> = Vec::new();
    let mut j: usize = 0;
    while j < fb.len()
        invariant
            j <= fb@.len(),
            bin_rows@.len() == j,
            forall|q: int| 0 <= q < j ==> #[trigger] footprint_view(bin_rows@)[q] == crate::orderflow::bars_view(fb@)[q],
        decreases fb@.len() - j,
    {
        let row = FootprintBarRow::of_bar(&fb[j]);
        proof {
            let m = row.bins@.map_values(|b: PriceBinRow| bin_of_row(b));
            assert forall|q: int| 0 <= q < m.len() implies #[trigger] m[q] == fb@[j as int].bins@[q] by {
                assert(row.bins@[q] == crate::export_rows::bin_row(fb@[j as int].bins@[q]));
            }
            assert(m =~= fb@[j as int].bins@);
        }
        let ghost before = bin_rows@;
        bin_rows.push(row);
        proof {
            assert forall|q: int| 0 <= q < j + 1 implies #[trigger] footprint_view(bin_rows@)[q] == crate::orderflow::bars_view(fb@)[q] by {
                if q < j {
                    assert(bin_rows@[q] == before[q]);
                    assert(footprint_view(before)[q] == crate::orderflow::bars_view(fb@)[q]);
                }
            }
        }
        j = j + 1;
    }
    assert(footprint_view(bin_rows@) =~= crate::orderflow::bars_view(fb@));

    let mut depth_rows: Vec<DepthSeriesRow> = Vec::new();
    let mut k: usize = 0;
    while k < bands_e8.len()
        invariant
            k <= bands_e8@.len(),
            2 * bands_e8@.len() <= usize::MAX,
            forall|i: int| 0 <= i < bucket.snapshots@.len() ==> (#[trigger] bucket.snapshots@[i]).1.wf(),
            depth_rows@.len() == 2 * k,
            forall|q: int| 0 <= q < depth_rows@.len() ==> {
                let row = #[trigger] depth_rows@[q];
                let side = depth_row_side(q);
                let band = bands_e8@[q / 2];
                &&& row.side@ == (if q % 2 == 0 { "bid"@ } else { "ask"@ })
                &&& row.band_pct_e8 == band
                &&& (timeframe_ms <= 0 ==> row.series@.len() == 0)
                &&& (timeframe_ms > 0 ==> series_ok(delta_pairs(row.series@), depth_samples(snapshot_views(bucket.snapshots@), side, band), timeframe_ms as int))
            },
        decreases bands_e8@.len() - k,
    {
        let band = bands_e8[k];
        let bid_series = compute(&bucket.snapshots, Side::Buy, band, timeframe_ms);
        let bid_rows = delta_rows(&bid_series);
        assert(delta_pairs(bid_rows@) =~= bid_series@);
        let ask_series = compute(&bucket.snapshots, Side::Sell, band, timeframe_ms);
        let ask_rows = delta_rows(&ask_series);
        assert(delta_pairs(ask_rows@) =~= ask_series@);
        let ghost before = depth_rows@;
        depth_rows.push(DepthSeriesRow { side: side_slug(Side::Buy).to_owned(), band_pct_e8: band, series: bid_rows });
        depth_rows.push(DepthSeriesRow { side: side_slug(Side::Sell).to_owned(), band_pct_e8: band, series: ask_rows });
        proof {
            assert forall|q: int| 0 <= q < depth_rows@.len() implies {
                let row = #[trigger] depth_rows@[q];
                let side = depth_row_side(q);
                let band = bands_e8@[q / 2];
                &&& row.side@ == (if q % 2 == 0 { "bid"@ } else { "ask"@ })
                &&& row.band_pct_e8 == band
                &&& (timeframe_ms <= 0 ==> row.series@.len() == 0)
                &&& (timeframe_ms > 0 ==> series_ok(delta_pairs(row.series@), depth_samples(snapshot_views(bucket.snapshots@), side, band), timeframe_ms as int))
            } by {
                if q < 2 * k {
                    assert(depth_rows@[q] == before[q]);
                } else {
                    assert(q / 2 == k as int);
                }
            }
        }
        k = k + 1;
    }

    ExportArtifact {
        schema_version: EXPORT_SCHEMA_VERSION,
        venue: venue_slug(venue).to_owned(),
        symbol: symbol.to_owned(),
        timeframe_ms,
        epoch_ids: copy_texts(epoch_ids),
        first_wall_ms,
        last_wall_ms,
        ohlcv,
        footprint_delta: footprint_rows,
        cumulative_delta: cumulative_rows,
        footprint_bins: bin_rows,
        depth_series: depth_rows,
    }
}

} // verus!
