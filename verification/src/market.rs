use vstd::prelude::*;

verus! {

/// Fixed-point scale of prices, sizes and money amounts (×1e8).
pub const PRICE_SCALE: i64 = 100_000_000;

/// Side of a book level or of a trade's aggressor.
#[derive(Clone, Copy, Debug, PartialEq, Eq, Structural)]
pub enum Side {
    Buy,
    Sell,
}

/// Trading venue.
#[derive(Clone, Copy, Debug, PartialEq, Eq, Structural)]
pub enum Venue {
    Binance,
    Hyperliquid,
    BinanceFutures,
}

/// One price level of a book update: fixed-point price and size (size 0 removes the level).
#[derive(Clone, Copy, Debug, PartialEq, Eq, Structural)]
pub struct Level {
    pub price: i64,
    pub size: i64,
}

/// Payload of a market-data event.
#[derive(Clone, Debug, PartialEq, Eq)]
pub enum MdPayload {
    /// Full book snapshot.
    L2Snapshot { bids: Vec<Level>, asks: Vec<Level>, ts_exch_ms: i64 },
    /// Incremental book update with the exchange's update ids.
    L2Delta {
        bids: Vec<Level>,
        asks: Vec<Level>,
        first_update_id: u64,
        final_update_id: u64,
        prev_final_update_id: u64,
        ts_exch_ms: i64,
    },
    /// A trade; `side` is the aggressor's.
    Trade { price: i64, size: i64, side: Side, ts_exch_ms: i64 },
    Funding { rate_e8: i64, mark_price_e8: i64, ts_exch_ms: i64 },
    OpenInterest { oi_e8: i64, ts_exch_ms: i64 },
    Liquidation { price: i64, size: i64, side: Side, ts_exch_ms: i64 },
    MarginRate { rate_e8: i64, ts_exch_ms: i64 },
}

/// Market data of one instrument.
#[derive(Clone, Debug, PartialEq, Eq)]
pub struct MdEvent {
    pub venue: Venue,
    pub symbol: String,
    pub payload: MdPayload,
}

/// Connection events of the recorder.
#[derive(Clone, Copy, Debug, PartialEq, Eq, Structural)]
pub enum SysEvent {
    ConnDown(Venue),
    ConnUp(Venue),
}

/// What a journal event carries.
#[derive(Clone, Debug, PartialEq, Eq)]
pub enum EventKind {
    Md(MdEvent),
    Sys(SysEvent),
}

/// A journal event: its sequence number, the recorder's monotonic and wall clocks, and
/// what it carries.
#[derive(Clone, Debug, PartialEq, Eq)]
pub struct Event {
    pub seq: u64,
    pub ts_mono_ns: u64,
    pub ts_wall_ms: i64,
    pub kind: EventKind,
}

} // verus!
