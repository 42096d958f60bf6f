//! Row shapes of the order-flow export: the stable JSON form of each reducer's output.

use vstd::prelude::*;

use crate::export::OhlcvBar;
use crate::orderflow::{FootprintBar, PriceBin};

verus! {

/// Version of the export contract; an increment is a breaking change of the data's form.
pub const EXPORT_SCHEMA_VERSION: u32 = 1;

/// A candle as exported (fixed-point ×1e8 fields as they are).
#[derive(Clone, Copy, Debug, PartialEq, Eq, Structural)]
pub struct OhlcvRow {
    pub time_s: i64,
    pub open: i64,
    pub high: i64,
    pub low: i64,
    pub close: i64,
    pub volume: i64,
}

impl From<OhlcvBar> for OhlcvRow {
    fn from(b: OhlcvBar) -> (r: Self) {
        OhlcvRow { time_s: b.time_s, open: b.open, high: b.high, low: b.low, close: b.close, volume: b.volume }
    }
}

impl vstd::std_specs::convert::FromSpecImpl<OhlcvBar> for OhlcvRow {
    open spec fn obeys_from_spec() -> bool {
        true
    }

    open spec fn from_spec(b: OhlcvBar) -> OhlcvRow {
        OhlcvRow { time_s: b.time_s, open: b.open, high: b.high, low: b.low, close: b.close, volume: b.volume }
    }
}

/// A per-bucket scalar as exported.
#[derive(Clone, Copy, Debug, PartialEq, Eq, Structural)]
pub struct DeltaRow {
    pub time_s: i64,
    pub value: i64,
}

/// A footprint bin as exported.
#[derive(Clone, Copy, Debug, PartialEq, Eq, Structural)]
pub struct PriceBinRow {
    pub price: i64,
    pub buy_vol: i64,
    pub sell_vol: i64,
    pub delta: i64,
}

/// A footprint bar as exported.
#[derive(Clone, Debug, PartialEq, Eq)]
pub struct FootprintBarRow {
    pub time_s: i64,
    pub bins: Vec<PriceBinRow>,
}

/// A bin's row.
pub open spec fn bin_row(b: PriceBin) -> PriceBinRow {
    PriceBinRow { price: b.price, buy_vol: b.buy_vol, sell_vol: b.sell_vol, delta: b.delta }
}

impl FootprintBarRow {
    /// The bar's row: same bucket, one row per bin in the same order.
    pub fn of_bar(bar: &FootprintBar) -> (r: Self)
        ensures
            r.time_s == bar.time_s,
            r.bins@ == bar.bins@.map_values(|b: PriceBin| bin_row(b)),
    {
        let mut bins: Vec<PriceBinRow> = Vec::new();
        let mut i: usize = 0;
        while i < bar.bins.len()
            invariant
                i <= bar.bins@.len(),
                bins@ == bar.bins@.subrange(0, i as int).map_values(|b: PriceBin| bin_row(b)),
            decreases bar.bins@.len() - i,
        {
            let b = bar.bins[i];
            bins.push(PriceBinRow { price: b.price, buy_vol: b.buy_vol, sell_vol: b.sell_vol, delta: b.delta });
            assert(bar.bins@.subrange(0, i as int + 1).map_values(|b: PriceBin| bin_row(b))
                =~= bar.bins@.subrange(0, i as int).map_values(|b: PriceBin| bin_row(b)).push(bin_row(b)));
            i = i + 1;
        }
        assert(bar.bins@.subrange(0, bar.bins@.len() as int) =~= bar.bins@);
        FootprintBarRow { time_s: bar.time_s, bins }
    }
}

/// A depth series of one side and band as exported.
#[derive(Clone, Debug, PartialEq, Eq)]
pub struct DepthSeriesRow {
    /// `bid` or `ask`.
    pub side: String,
    pub band_pct_e8: i64,
    pub series: Vec<DeltaRow>,
}

/// The export artifact of one instrument.
#[derive(Clone, Debug, PartialEq, Eq)]
pub struct ExportArtifact {
    pub schema_version: u32,
    pub venue: String,
    pub symbol: String,
    pub timeframe_ms: i64,
    /// Epochs in the sample, for traceability.
    pub epoch_ids: Vec<String>,
    /// Bounds of the window (wall clock of the events).
    pub first_wall_ms: i64,
    pub last_wall_ms: i64,
    pub ohlcv: Vec<OhlcvRow>,
    pub footprint_delta: Vec<DeltaRow>,
    pub cumulative_delta: Vec<DeltaRow>,
    pub footprint_bins: Vec<FootprintBarRow>,
    /// Depth series per side and band: bid and ask are separate keys.
    pub depth_series: Vec<DepthSeriesRow>,
}

/// Rows of `(time_s, value)` pairs.
pub fn delta_rows(series: &Vec<(i64, i64)>) -> (r: Vec<DeltaRow>)
    ensures
        r@.len() == series@.len(),
        forall|i: int| 0 <= i < r@.len() ==> (#[trigger] r@[i]).time_s == series@[i].0 && r@[i].value == series@[i].1,
{
    let mut out: Vec<DeltaRow> = Vec::new();
    let mut i: usize = 0;
    while i < series.len()
        invariant
            i <= series@.len(),
            out@.len() == i,
            forall|j: int| 0 <= j < i ==> (#[trigger] out@[j]).time_s == series@[j].0 && out@[j].value == series@[j].1,
        decreases series@.len() - i,
    {
        out.push(DeltaRow { time_s: series[i].0, value: series[i].1 });
        i = i + 1;
    }
    out
}

/// Export name of a book side: `bid` for bids, `ask` for asks.
pub fn side_slug(s: crate::market::Side) -> (r: &'static str)
    ensures
        r@ == match s {
            crate::market::Side::Buy => "bid"@,
            crate::market::Side::Sell => "ask"@,
        },
{
    proof {
        reveal_strlit("bid");
        reveal_strlit("ask");
    }
    match s {
        crate::market::Side::Buy => "bid",
        crate::market::Side::Sell => "ask",
    }
}

/// Export name of a venue: `binance`, `hyperliquid`, and `unknown` for any other.
pub fn venue_slug(v: crate::market::Venue) -> (r: &'static str)
    ensures
        r@ == match v {
            crate::market::Venue::Binance => "binance"@,
            crate::market::Venue::Hyperliquid => "hyperliquid"@,
            _ => "unknown"@,
        },
{
    proof {
        reveal_strlit("binance");
        reveal_strlit("hyperliquid");
        reveal_strlit("unknown");
    }
    match v {
        crate::market::Venue::Binance => "binance",
        crate::market::Venue::Hyperliquid => "hyperliquid",
        _ => "unknown",
    }
}

} // verus!
