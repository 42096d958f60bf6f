//! Order-book imbalance (OBI): the signal keeps its own book of one instrument, rebuilt
//! from that instrument's snapshots, and measures the depth of each side either over the
//! top N levels or within a price band around the mid. The score `2·(bid/(bid+ask) − 0.5)`
//! is taken from these two depths; both sides empty means no opinion.

use vstd::prelude::*;

use crate::market::{Event, EventKind, Level, MdPayload, Side, Venue};
use crate::signals::str_eq;
use crate::sim::book::{snapshot_side, top_n_total, view_depth, OrderBook};

verus! {

/// How the depth of each side is measured.
#[derive(Clone, Copy, Debug, PartialEq, Eq, Structural)]
pub enum ObiMode {
    /// Total size of the `n_levels` best levels of each side.
    TopN { n_levels: u64 },
    /// Depth within a band around the mid, ×1e8 of the mid, per side.
    Bands { d_bid_e8: i64, d_ask_e8: i64 },
}

/// Parameters of an OBI instance.
#[derive(Clone, Debug)]
pub struct ObiParams {
    pub mode: ObiMode,
    /// Emission threshold on `|score|`, ×1e8.
    pub theta_e8: i64,
    /// Horizon passed downstream.
    pub horizon_ms: i64,
    pub venue: Venue,
    pub symbol: String,
}

/// Depths `(bid, ask)` of a book given by its sides.
pub open spec fn obi_depths(bids: Seq<(i64, i64)>, asks: Seq<(i64, i64)>, mode: ObiMode) -> (i64, i64) {
    match mode {
        ObiMode::TopN { n_levels } => (top_n_total(bids, n_levels as int), top_n_total(asks, n_levels as int)),
        ObiMode::Bands { d_bid_e8, d_ask_e8 } => (
            view_depth(bids, asks, Side::Buy, d_bid_e8),
            view_depth(bids, asks, Side::Sell, d_ask_e8),
        ),
    }
}

/// The snapshot levels `(bids, asks)` of an event, when it is a snapshot of the instrument.
pub open spec fn own_snapshot(ev: Event, venue: Venue, symbol: Seq<char>) -> Option<(Seq<Level>, Seq<Level>)> {
    match ev.kind {
        EventKind::Md(md) => if md.venue == venue && md.symbol@ == symbol {
            match md.payload {
                MdPayload::L2Snapshot { bids, asks, .. } => Some((bids@, asks@)),
                _ => None,
            }
        } else {
            None
        },
        _ => None,
    }
}

/// An OBI book listens to its own instrument only: an event of another venue or another
/// symbol, a system event, or a market-data event that is not a snapshot is no snapshot of
/// the book, so `observe` returns `None` on it and keeps the book; a snapshot of exactly the
/// book's venue and symbol hands its own levels over.
pub proof fn law_observe_own_instrument_only(ev: Event, venue: Venue, symbol: Seq<char>)
    ensures
        (ev.kind matches EventKind::Md(md) && (md.venue != venue || md.symbol@ != symbol)) ==> own_snapshot(ev, venue, symbol) is None,
        ev.kind is Sys ==> own_snapshot(ev, venue, symbol) is None,
        (ev.kind matches EventKind::Md(md) && !(md.payload is L2Snapshot)) ==> own_snapshot(ev, venue, symbol) is None,
        match ev.kind {
            EventKind::Md(md) => match md.payload {
                MdPayload::L2Snapshot { bids, asks, .. } => md.venue == venue && md.symbol@ == symbol
                    ==> own_snapshot(ev, venue, symbol) == Some((bids@, asks@)),
                _ => true,
            },
            _ => true,
        },
{
}

/// What a snapshot gives the score: its depths, unless both sides are empty of depth.
pub open spec fn opinion_depths(d: (i64, i64)) -> Option<(i64, i64)> {
    if d.0 == 0 && d.1 == 0 {
        None
    } else {
        Some(d)
    }
}

/// The book an OBI instance keeps for its instrument, and how it measures depth.
#[derive(Clone, Debug)]
pub struct ObiBook {
    pub venue: Venue,
    pub symbol: String,
    pub mode: ObiMode,
    pub book: OrderBook,
}

impl ObiBook {
    /// An empty book for the instrument of `params`.
    pub fn new(params: &ObiParams) -> (r: Self)
        ensures
            r.venue == params.venue,
            r.symbol@ == params.symbol@,
            r.mode == params.mode,
            r.book.wf(),
            r.book.side(Side::Buy).len() == 0,
            r.book.side(Side::Sell).len() == 0,
    {
        ObiBook {
            venue: params.venue,
            symbol: params.symbol.as_str().to_owned(),
            mode: params.mode,
            book: OrderBook::new(),
        }
    }

    /// Take one event. Only a snapshot of the instrument changes the book: it replaces it,
    /// and the depths of the new book are returned unless both are zero. Any other event
    /// leaves everything as it was and gives nothing.
    pub fn observe(&mut self, ev: &Event) -> (r: Option<(i64, i64)>)
        ensures
            final(self).venue == old(self).venue,
            final(self).symbol@ == old(self).symbol@,
            final(self).mode == old(self).mode,
            match own_snapshot(*ev, old(self).venue, old(self).symbol@) {
                Some((bids, asks)) => {
                    &&& final(self).book.wf()
                    &&& final(self).book.side(Side::Buy) == snapshot_side(bids, Side::Buy)
                    &&& final(self).book.side(Side::Sell) == snapshot_side(asks, Side::Sell)
                    &&& r == opinion_depths(obi_depths(
                        snapshot_side(bids, Side::Buy),
                        snapshot_side(asks, Side::Sell),
                        old(self).mode,
                    ))
                },
                None => {
                    &&& final(self).book == old(self).book
                    &&& r is None
                },
            },
    {
        let md = match &ev.kind {
            EventKind::Md(md) => md,
            _ => return None,
        };
        if !(md.venue == self.venue && str_eq(md.symbol.as_str(), self.symbol.as_str())) {
            return None;
        }
        let (bids, asks) = match &md.payload {
            MdPayload::L2Snapshot { bids, asks, .. } => (bids, asks),
            _ => return None,
        };
        self.book.apply_snapshot(bids.as_slice(), asks.as_slice());
        let (depth_bid, depth_ask) = match self.mode {
            ObiMode::TopN { n_levels } => (
                self.book.top_n_depth(Side::Buy, n_levels),
                self.book.top_n_depth(Side::Sell, n_levels),
            ),
            ObiMode::Bands { d_bid_e8, d_ask_e8 } => (
                self.book.depth_within_e8(Side::Buy, d_bid_e8),
                self.book.depth_within_e8(Side::Sell, d_ask_e8),
            ),
        };
        if depth_bid == 0 && depth_ask == 0 {
            None
        } else {
            Some((depth_bid, depth_ask))
        }
    }
}

} // verus!
