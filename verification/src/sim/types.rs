//! Domain vocabulary of the simulator.

use vstd::prelude::*;

use crate::market::{Side, Venue};

verus! {

/// Queue of a resting maker order: `ahead` is the visible size in front of us when the
/// order became active (the tail of the level), `cum_traded` the volume traded at our
/// price since then, `filled` what has been filled to us.
#[derive(Clone, Copy, Debug, PartialEq, Eq, Structural)]
pub struct QueueState {
    pub ahead: i64,
    pub cum_traded: i64,
    pub filled: i64,
}

/// Outcome of the fill model on one traded tick.
#[derive(Clone, Copy, Debug, PartialEq, Eq, Structural)]
pub enum FillDecision {
    NoFill,
    Partial { qty: i64 },
    Full { qty: i64 },
}

/// Maker rests in the book; taker crosses the visible book at once.
#[derive(Clone, Copy, Debug, PartialEq, Eq, Structural)]
pub enum OrderKind {
    Maker,
    Taker,
}

/// What a strategy asks the exchange for.
#[derive(Clone, Debug, PartialEq, Eq)]
pub struct OrderIntent {
    pub venue: Venue,
    pub symbol: String,
    pub side: Side,
    pub price: i64,
    pub qty: i64,
    pub kind: OrderKind,
}

/// An open order inside the simulator.
#[derive(Clone, Debug, PartialEq, Eq)]
pub struct SimOrder {
    pub id: u64,
    pub intent: OrderIntent,
    /// Sequence number of the last event visible when the order was submitted.
    pub submitted_seq: u64,
    /// Moment the order appears on the market: submission plus the submit latency.
    pub effective_ts_mono_ns: u64,
    pub queue: QueueState,
}

/// A trade at a price level: the only source of maker fills.
#[derive(Clone, Copy, Debug, PartialEq, Eq, Structural)]
pub struct TradedTick {
    pub price: i64,
    pub qty: i64,
    pub side: Side,
    pub seq: u64,
}

/// An execution handed out by the simulator.
#[derive(Clone, Copy, Debug, PartialEq, Eq, Structural)]
pub struct SimFill {
    pub order_id: u64,
    pub price: i64,
    pub qty: i64,
    pub maker: bool,
    /// Fee ×1e8 USD (negative is a rebate).
    pub fee_e8: i64,
    pub seq: u64,
    pub ts_mono_ns: u64,
}

/// Errors of the simulator.
#[derive(Clone, Debug, PartialEq, Eq)]
pub enum SimError {
    /// No measured latency distribution for the instrument: halt, never a default.
    MissingLatency { venue: Venue, symbol: String },
    /// No fee schedule for the venue: halt, never a zero fee.
    MissingFees { venue: Venue, symbol: String },
    /// Submission before the first market event.
    NoMarketData,
    /// Message of an I/O error.
    Io(String),
    Parse(String),
}

} // verus!
