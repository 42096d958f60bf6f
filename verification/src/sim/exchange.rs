//! Backtest exchange: stands exactly where the venue would stand. It consumes the event
//! stream (book snapshots and trades), manages the open simulated orders and hands out
//! fills in memory.
//!
//! An order appears on the market only after its submit latency (the market may move in
//! between); a cancellation takes effect after its cancel latency, and until then the order
//! may still fill.

use vstd::prelude::*;

use crate::bucket::trunc_div;
use crate::market::{Event, EventKind, MdPayload, Side, Venue, PRICE_SCALE};
use crate::signals::str_eq;
use crate::sim::book::{size_at_spec, snapshot_side, OrderBook};
use crate::sim::fees::{fee_spec, FeeSchedule};
use crate::sim::fill_model::{
    on_traded_tick, opposite, taker_fills, taker_walk, tick_applies, tick_fill_qty, tick_in_range,
};
use crate::sim::latency::{sample_index, LatencyTable};
use crate::sim::rng::{splitmix_advance, splitmix_mix, SplitMix64};
use crate::sim::types::{
    FillDecision, OrderIntent, OrderKind, QueueState, SimError, SimFill, SimOrder, TradedTick,
};

verus! {

/// A submitted order that has not yet appeared on the market.
#[derive(Debug)]
pub struct PendingOrder {
    pub id: u64,
    pub intent: OrderIntent,
    pub submitted_seq: u64,
    pub effective_ts_mono_ns: u64,
}

/// A cancellation waiting for its latency to pass.
#[derive(Clone, Copy, Debug, PartialEq, Eq, Structural)]
pub struct PendingCancel {
    pub order_id: u64,
    pub effective_ts_mono_ns: u64,
}

#[derive(Debug)]
struct BookSlot {
    venue: Venue,
    symbol: String,
    book: OrderBook,
}

/// A reconstructed book as the model sees it: instrument, bid levels, ask levels.
pub type BookView = (Venue, Seq<char>, Seq<(i64, i64)>, Seq<(i64, i64)>);

/// The state of the exchange as the contracts see it.
#[verifier::ext_equal]
pub struct ExchangeModel {
    pub books: Seq<BookView>,
    pub pending: Seq<PendingOrder>,
    pub cancels: Seq<PendingCancel>,
    /// Resting maker orders, by ascending id.
    pub active: Seq<SimOrder>,
    pub rng: u64,
    pub next_id: u64,
    pub last_seq: Option<u64>,
    pub last_ts_mono_ns: u64,
}

// ---------------------------------------------------------------------------------------
// The model.

/// Index of the instrument's book, if it has one.
pub open spec fn book_index(books: Seq<BookView>, venue: Venue, sym: Seq<char>) -> Option<int> {
    if exists|i: int| 0 <= i < books.len() && books[i].0 == venue && books[i].1 == sym {
        Some(choose|i: int| 0 <= i < books.len() && books[i].0 == venue && books[i].1 == sym)
    } else {
        None
    }
}

/// Levels of a side of a book view.
pub open spec fn view_side(b: BookView, side: Side) -> Seq<(i64, i64)> {
    match side {
        Side::Buy => b.2,
        Side::Sell => b.3,
    }
}

/// Depth ahead of a new maker order: the visible size at its own price level on its side
/// (0 when the instrument has no book or the price no level).
pub open spec fn maker_ahead(books: Seq<BookView>, intent: OrderIntent) -> i64 {
    match book_index(books, intent.venue, intent.symbol@) {
        Some(i) => size_at_spec(view_side(books[i], intent.side), intent.price),
        None => 0,
    }
}

/// Notional ×1e8 USD of a fill: `price · qty / 1e8`, narrowed to `i64`.
pub open spec fn notional_e8(price: i64, qty: i64) -> i64 {
    trunc_div(price as int * qty as int, PRICE_SCALE as int) as i64
}

/// Fee of a fill at the venue's maker or taker rate; 0 when the venue has no rates.
pub open spec fn fill_fee(fees: FeeSchedule, venue: Venue, maker: bool, notional: i64) -> i64 {
    match fees.rates(venue) {
        Some(r) => fee_spec(notional, if maker { r.maker_rate_e8 } else { r.taker_rate_e8 }),
        None => 0,
    }
}

/// The fill of one taker level.
pub open spec fn taker_fill(p: PendingOrder, fees: FeeSchedule, lvl: (i64, i64), seq: u64, ts: u64) -> SimFill {
    SimFill {
        order_id: p.id,
        price: lvl.0,
        qty: lvl.1,
        maker: false,
        fee_e8: fill_fee(fees, p.intent.venue, false, notional_e8(lvl.0, lvl.1)),
        seq,
        ts_mono_ns: ts,
    }
}

/// Fills of a maturing taker order: the visible opposite side eaten up to the limit price;
/// nothing without a book. The rest of the order expires.
pub open spec fn taker_sim_fills(p: PendingOrder, books: Seq<BookView>, fees: FeeSchedule, seq: u64, ts: u64) -> Seq<SimFill> {
    match book_index(books, p.intent.venue, p.intent.symbol@) {
        Some(i) => taker_walk(
            view_side(books[i], opposite(p.intent.side)),
            p.intent.side,
            p.intent.qty as int,
            p.intent.price,
        ).map_values(|l: (i64, i64)| taker_fill(p, fees, l, seq, ts)),
        None => Seq::empty(),
    }
}

/// A maturing maker order, at the tail of its price level.
pub open spec fn activated_maker(p: PendingOrder, books: Seq<BookView>) -> SimOrder {
    SimOrder {
        id: p.id,
        intent: p.intent,
        submitted_seq: p.submitted_seq,
        effective_ts_mono_ns: p.effective_ts_mono_ns,
        queue: QueueState { ahead: maker_ahead(books, p.intent), cum_traded: 0, filled: 0 },
    }
}

/// Pending orders whose effective time has come (at or before `ts`) leave the pending list
/// in order: makers become active, takers fill at once. Returns the still pending orders,
/// the new makers and the taker fills.
pub open spec fn activation(pend: Seq<PendingOrder>, books: Seq<BookView>, fees: FeeSchedule, seq: u64, ts: u64) -> (Seq<PendingOrder>, Seq<SimOrder>, Seq<SimFill>)
    decreases pend.len(),
{
    if pend.len() == 0 {
        (Seq::empty(), Seq::empty(), Seq::empty())
    } else {
        let rest = activation(pend.drop_first(), books, fees, seq, ts);
        let p = pend[0];
        if p.effective_ts_mono_ns > ts {
            (seq![p] + rest.0, rest.1, rest.2)
        } else if p.intent.kind == OrderKind::Maker {
            (rest.0, seq![activated_maker(p, books)] + rest.1, rest.2)
        } else {
            (rest.0, rest.1, taker_sim_fills(p, books, fees, seq, ts) + rest.2)
        }
    }
}

/// Number of orders with an id below `id`.
pub open spec fn count_below(s: Seq<SimOrder>, id: u64) -> nat
    decreases s.len(),
{
    if s.len() == 0 {
        0
    } else {
        (if s[0].id < id { 1nat } else { 0nat }) + count_below(s.drop_first(), id)
    }
}

/// Insert an order keeping the list by ascending id.
pub open spec fn insert_by_id(s: Seq<SimOrder>, o: SimOrder) -> Seq<SimOrder> {
    s.insert(count_below(s, o.id) as int, o)
}

/// Insert the orders one after the other.
pub open spec fn insert_all(s: Seq<SimOrder>, m: Seq<SimOrder>) -> Seq<SimOrder>
    decreases m.len(),
{
    if m.len() == 0 {
        s
    } else {
        insert_all(insert_by_id(s, m[0]), m.drop_first())
    }
}

/// Pending orders without the given id.
pub open spec fn remove_pending(s: Seq<PendingOrder>, id: u64) -> Seq<PendingOrder>
    decreases s.len(),
{
    if s.len() == 0 {
        s
    } else if s[0].id == id {
        remove_pending(s.drop_first(), id)
    } else {
        seq![s[0]] + remove_pending(s.drop_first(), id)
    }
}

/// Active orders without the given id.
pub open spec fn remove_active(s: Seq<SimOrder>, id: u64) -> Seq<SimOrder>
    decreases s.len(),
{
    if s.len() == 0 {
        s
    } else if s[0].id == id {
        remove_active(s.drop_first(), id)
    } else {
        seq![s[0]] + remove_active(s.drop_first(), id)
    }
}

/// Cancellations whose effective time has come remove their order from the pending and the
/// active lists; the others stay. Returns the remaining cancellations and both lists.
pub open spec fn cancellation(cs: Seq<PendingCancel>, pend: Seq<PendingOrder>, act: Seq<SimOrder>, ts: u64) -> (Seq<PendingCancel>, Seq<PendingOrder>, Seq<SimOrder>)
    decreases cs.len(),
{
    if cs.len() == 0 {
        (Seq::empty(), pend, act)
    } else {
        let c = cs[0];
        if c.effective_ts_mono_ns <= ts {
            cancellation(cs.drop_first(), remove_pending(pend, c.order_id), remove_active(act, c.order_id), ts)
        } else {
            let rest = cancellation(cs.drop_first(), pend, act, ts);
            (seq![c] + rest.0, rest.1, rest.2)
        }
    }
}

/// The queue of an order after a traded tick.
pub open spec fn tick_queue(o: SimOrder, tick: TradedTick) -> QueueState {
    if tick_applies(o, tick) {
        QueueState {
            ahead: o.queue.ahead,
            cum_traded: (o.queue.cum_traded + tick.qty) as i64,
            filled: (o.queue.filled + tick_fill_qty(o, tick)) as i64,
        }
    } else {
        o.queue
    }
}

/// The order with its queue replaced.
pub open spec fn with_queue(o: SimOrder, q: QueueState) -> SimOrder {
    SimOrder {
        id: o.id,
        intent: o.intent,
        submitted_seq: o.submitted_seq,
        effective_ts_mono_ns: o.effective_ts_mono_ns,
        queue: q,
    }
}

/// The order rests on the traded instrument as a maker.
pub open spec fn trades_on(o: SimOrder, venue: Venue, sym: Seq<char>) -> bool {
    o.intent.venue == venue && o.intent.symbol@ == sym && o.intent.kind == OrderKind::Maker
}

/// A trade passes over the active makers of its instrument by ascending id: each moves its
/// queue and may fill (at its own price, with the maker fee); an order that is filled
/// completely leaves. Returns the remaining active orders and the fills.
pub open spec fn trade_pass(act: Seq<SimOrder>, tick: TradedTick, venue: Venue, sym: Seq<char>, fees: FeeSchedule, ts: u64) -> (Seq<SimOrder>, Seq<SimFill>)
    decreases act.len(),
{
    if act.len() == 0 {
        (Seq::empty(), Seq::empty())
    } else {
        let o = act[0];
        let rest = trade_pass(act.drop_first(), tick, venue, sym, fees, ts);
        if !trades_on(o, venue, sym) {
            (seq![o] + rest.0, rest.1)
        } else {
            let q = tick_queue(o, tick);
            let f = tick_fill_qty(o, tick);
            if f > 0 {
                let fill = SimFill {
                    order_id: o.id,
                    price: o.intent.price,
                    qty: f as i64,
                    maker: true,
                    fee_e8: fill_fee(fees, o.intent.venue, true, notional_e8(o.intent.price, f as i64)),
                    seq: tick.seq,
                    ts_mono_ns: ts,
                };
                if q.filled >= o.intent.qty {
                    (rest.0, seq![fill] + rest.1)
                } else {
                    (seq![with_queue(o, q)] + rest.0, seq![fill] + rest.1)
                }
            } else {
                (seq![with_queue(o, q)] + rest.0, rest.1)
            }
        }
    }
}

/// The book views after a snapshot of an instrument: its book is replaced (or added).
pub open spec fn books_after_snapshot(books: Seq<BookView>, venue: Venue, sym: Seq<char>, bids: Seq<crate::market::Level>, asks: Seq<crate::market::Level>) -> Seq<BookView> {
    let b = (venue, sym, snapshot_side(bids, Side::Buy), snapshot_side(asks, Side::Sell));
    match book_index(books, venue, sym) {
        Some(i) => books.update(i, b),
        None => books.push(b),
    }
}

/// Every maker of the instrument stays inside `i64` on this tick.
pub open spec fn trade_in_range(act: Seq<SimOrder>, tick: TradedTick, venue: Venue, sym: Seq<char>) -> bool {
    forall|i: int| 0 <= i < act.len() && trades_on(#[trigger] act[i], venue, sym) ==> tick_in_range(act[i], tick)
}

/// The active list after activation and cancellation, before the event's own effect.
pub open spec fn active_before_effect(m: ExchangeModel, fees: FeeSchedule, ev: Event) -> Seq<SimOrder> {
    let a = activation(m.pending, m.books, fees, ev.seq, ev.ts_mono_ns);
    cancellation(m.cancels, a.0, insert_all(m.active, a.1), ev.ts_mono_ns).2
}

/// One event of the journal: first the matured pending orders activate (makers see the
/// book as the last snapshot left it; takers fill against it), then matured cancellations
/// apply, then the event itself acts: a snapshot replaces its instrument's book, a trade
/// passes over the active makers of its instrument; other payloads change nothing.
pub open spec fn step(m: ExchangeModel, fees: FeeSchedule, ev: Event) -> (ExchangeModel, Seq<SimFill>) {
    let a = activation(m.pending, m.books, fees, ev.seq, ev.ts_mono_ns);
    let c = cancellation(m.cancels, a.0, insert_all(m.active, a.1), ev.ts_mono_ns);
    let base = ExchangeModel {
        books: m.books,
        pending: c.1,
        cancels: c.0,
        active: c.2,
        rng: m.rng,
        next_id: m.next_id,
        last_seq: Some(ev.seq),
        last_ts_mono_ns: ev.ts_mono_ns,
    };
    match ev.kind {
        EventKind::Md(md) => match md.payload {
            MdPayload::L2Snapshot { bids, asks, .. } => (
                ExchangeModel { books: books_after_snapshot(m.books, md.venue, md.symbol@, bids@, asks@), ..base },
                a.2,
            ),
            MdPayload::Trade { price, size, side, .. } => {
                let tick = TradedTick { price, qty: size, side, seq: ev.seq };
                let t = trade_pass(c.2, tick, md.venue, md.symbol@, fees, ev.ts_mono_ns);
                (ExchangeModel { active: t.0, ..base }, a.2 + t.1)
            },
            _ => (base, a.2),
        },
        EventKind::Sys(_) => (base, a.2),
    }
}

/// The event can be processed without leaving `i64`: on a trade, every maker of the
/// instrument keeps its queue numbers in range.
pub open spec fn event_in_range(m: ExchangeModel, fees: FeeSchedule, ev: Event) -> bool {
    match ev.kind {
        EventKind::Md(md) => match md.payload {
            MdPayload::Trade { price, size, side, .. } => trade_in_range(
                active_before_effect(m, fees, ev),
                TradedTick { price, qty: size, side, seq: ev.seq },
                md.venue,
                md.symbol@,
            ),
            _ => true,
        },
        EventKind::Sys(_) => true,
    }
}

/// Latency of a submit or a cancel: the three draws of the instrument's table entry.
pub open spec fn drawn(lat: LatencyTable, venue: Venue, sym: Seq<char>, rng: u64) -> (u64, u64, u64) {
    let smp = lat.samples()[(venue, sym)];
    let s1 = splitmix_advance(rng);
    let s2 = splitmix_advance(s1);
    let s3 = splitmix_advance(s2);
    (
        smp.0[sample_index(splitmix_mix(s1), smp.0.len()) as int],
        smp.1[sample_index(splitmix_mix(s2), smp.1.len()) as int],
        smp.2[sample_index(splitmix_mix(s3), smp.2.len()) as int],
    )
}

/// The generator after one draw.
pub open spec fn rng_after_draw(rng: u64) -> u64 {
    splitmix_advance(splitmix_advance(splitmix_advance(rng)))
}


/// Fills strictly ascend by order id along the list.
pub open spec fn fills_by_ascending_id(f: Seq<SimFill>) -> bool {
    forall|i: int, j: int| 0 <= i < j < f.len() ==> (#[trigger] f[i]).order_id < (#[trigger] f[j]).order_id
}

/// Maker fills of one tick come out by strictly ascending order id (the order in which
/// orders were submitted), never in an order that depends on memory layout; each fill
/// belongs to an active maker of the traded instrument, is at that order's price, is
/// positive and carries the tick's sequence number and the event's clock.
pub proof fn law_trade_fills_by_ascending_id(act: Seq<SimOrder>, tick: TradedTick, venue: Venue, sym: Seq<char>, fees: FeeSchedule, ts: u64)
    requires
        ids_ascending(act),
        trade_in_range(act, tick, venue, sym),
    ensures
        fills_by_ascending_id(trade_pass(act, tick, venue, sym, fees, ts).1),
        forall|i: int| 0 <= i < trade_pass(act, tick, venue, sym, fees, ts).1.len() ==> exists|k: int| {
            &&& 0 <= k < act.len()
            &&& trades_on(act[k], venue, sym)
            &&& act[k].id == (#[trigger] trade_pass(act, tick, venue, sym, fees, ts).1[i]).order_id
            &&& act[k].intent.price == trade_pass(act, tick, venue, sym, fees, ts).1[i].price
            &&& trade_pass(act, tick, venue, sym, fees, ts).1[i].qty > 0
            &&& trade_pass(act, tick, venue, sym, fees, ts).1[i].maker
            &&& trade_pass(act, tick, venue, sym, fees, ts).1[i].seq == tick.seq
            &&& trade_pass(act, tick, venue, sym, fees, ts).1[i].ts_mono_ns == ts
        },
    decreases act.len(),
{
    if act.len() > 0 {
        let t = act.drop_first();
        assert forall|a: int, b: int| 0 <= a < b < t.len() implies (#[trigger] t[a]).id < (#[trigger] t[b]).id by {
            assert(t[a] == act[a + 1]);
            assert(t[b] == act[b + 1]);
        }
        assert forall|i: int| 0 <= i < t.len() && trades_on(#[trigger] t[i], venue, sym) implies tick_in_range(t[i], tick) by {
            assert(t[i] == act[i + 1]);
        }
        law_trade_fills_by_ascending_id(t, tick, venue, sym, fees, ts);
        let rest = trade_pass(t, tick, venue, sym, fees, ts).1;
        let f = trade_pass(act, tick, venue, sym, fees, ts).1;
        let o = act[0];
        let grew = trades_on(o, venue, sym) && tick_fill_qty(o, tick) > 0;
        if grew {
            assert(f =~= seq![f[0]] + rest);
            assert(tick_in_range(o, tick));
            assert(f[0].order_id == o.id && f[0].price == o.intent.price && f[0].qty > 0 && f[0].maker);
            assert(f[0].seq == tick.seq && f[0].ts_mono_ns == ts);
        } else {
            assert(f == rest);
        }
        assert forall|i: int| 0 <= i < rest.len() implies act[0].id < (#[trigger] rest[i]).order_id by {
            let k = choose|k: int| {
                &&& 0 <= k < t.len()
                &&& trades_on(t[k], venue, sym)
                &&& t[k].id == rest[i].order_id
                &&& t[k].intent.price == rest[i].price
                &&& rest[i].qty > 0
                &&& rest[i].maker
                &&& rest[i].seq == tick.seq
                &&& rest[i].ts_mono_ns == ts
            };
            assert(t[k] == act[k + 1]);
        }
        assert forall|i: int| 0 <= i < f.len() implies exists|k: int| {
            &&& 0 <= k < act.len()
            &&& trades_on(act[k], venue, sym)
            &&& act[k].id == (#[trigger] f[i]).order_id
            &&& act[k].intent.price == f[i].price
            &&& f[i].qty > 0
            &&& f[i].maker
            &&& f[i].seq == tick.seq
            &&& f[i].ts_mono_ns == ts
        } by {
            if grew && i == 0 {
                assert(trades_on(act[0], venue, sym));
            } else {
                let ri = if grew { i - 1 } else { i };
                assert(f[i] == rest[ri]);
                let k = choose|k: int| {
                    &&& 0 <= k < t.len()
                    &&& trades_on(t[k], venue, sym)
                    &&& t[k].id == rest[ri].order_id
                    &&& t[k].intent.price == rest[ri].price
                    &&& rest[ri].qty > 0
                    &&& rest[ri].maker
                    &&& rest[ri].seq == tick.seq
                    &&& rest[ri].ts_mono_ns == ts
                };
                assert(t[k] == act[k + 1]);
                assert(trades_on(act[k + 1], venue, sym));
            }
        }
        assert forall|i: int, j: int| 0 <= i < j < f.len() implies (#[trigger] f[i]).order_id < (#[trigger] f[j]).order_id by {
            if grew {
                if i == 0 {
                    if j > 0 { assert(f[j] == rest[j - 1]); }
                } else {
                    assert(f[i] == rest[i - 1]);
                    assert(f[j] == rest[j - 1]);
                }
            } else {
                assert(f[i] == rest[i]);
                assert(f[j] == rest[j]);
            }
        }
    }
}

/// The model after a submit: unchanged when it is refused (no event yet, no latency
/// distribution, no fees for the venue); otherwise the order is pending with the next id,
/// effective after the drawn submit latency.
pub open spec fn submitted(m: ExchangeModel, lat: LatencyTable, fees: FeeSchedule, intent: OrderIntent) -> ExchangeModel {
    if m.last_seq is None || !lat.samples().contains_key((intent.venue, intent.symbol@)) || fees.rates(intent.venue) is None {
        m
    } else {
        ExchangeModel {
            pending: m.pending.push(PendingOrder {
                id: m.next_id,
                intent,
                submitted_seq: m.last_seq.unwrap(),
                effective_ts_mono_ns: (m.last_ts_mono_ns + drawn(lat, intent.venue, intent.symbol@, m.rng).0) as u64,
            }),
            rng: rng_after_draw(m.rng),
            next_id: (m.next_id + 1) as u64,
            ..m
        }
    }
}

/// The model after a cancel: unchanged for an id that is not open, before the first event
/// or without a latency distribution; otherwise a cancellation is queued after the drawn
/// cancel latency.
pub open spec fn cancelled(m: ExchangeModel, lat: LatencyTable, order_id: u64) -> ExchangeModel {
    match open_order_key(m, order_id) {
        Some(k) => if m.last_seq is None || !lat.samples().contains_key(k) {
            m
        } else {
            ExchangeModel {
                cancels: m.cancels.push(PendingCancel {
                    order_id,
                    effective_ts_mono_ns: (m.last_ts_mono_ns + drawn(lat, k.0, k.1, m.rng).1) as u64,
                }),
                rng: rng_after_draw(m.rng),
                ..m
            }
        },
        None => m,
    }
}

/// One call on the exchange: an event of the journal, a submit or a cancel.
pub enum ExchangeInput {
    Event(Event),
    Submit(OrderIntent),
    Cancel(u64),
}

/// The model and the fills after a sequence of calls, from the model `m`: events step the
/// model and hand out fills, submits and cancels change the model only.
pub open spec fn drive(m: ExchangeModel, lat: LatencyTable, fees: FeeSchedule, inputs: Seq<ExchangeInput>) -> (ExchangeModel, Seq<SimFill>)
    decreases inputs.len(),
{
    if inputs.len() == 0 {
        (m, Seq::empty())
    } else {
        let r = drive(m, lat, fees, inputs.drop_last());
        match inputs.last() {
            ExchangeInput::Event(ev) => {
                let st = step(r.0, fees, ev);
                (st.0, r.1 + st.1)
            },
            ExchangeInput::Submit(intent) => (submitted(r.0, lat, fees, intent), r.1),
            ExchangeInput::Cancel(id) => (cancelled(r.0, lat, id), r.1),
        }
    }
}

/// No look-ahead: the fills handed out while the first `k` calls run are exactly the
/// beginning of the fills of any longer run with those first calls, whatever follows. So
/// two runs from the same state with the same calls up to `k` agree on every fill handed
/// out up to `k`; later events never change earlier fills.
pub proof fn law_fills_never_look_ahead(m: ExchangeModel, lat: LatencyTable, fees: FeeSchedule, a: Seq<ExchangeInput>, b: Seq<ExchangeInput>, k: int)
    requires
        0 <= k <= a.len(),
        k <= b.len(),
        a.subrange(0, k) == b.subrange(0, k),
    ensures
        ({
            let early = drive(m, lat, fees, a.subrange(0, k)).1;
            &&& early == drive(m, lat, fees, b.subrange(0, k)).1
            &&& early.len() <= drive(m, lat, fees, a).1.len()
            &&& drive(m, lat, fees, a).1.subrange(0, early.len() as int) == early
            &&& early.len() <= drive(m, lat, fees, b).1.len()
            &&& drive(m, lat, fees, b).1.subrange(0, early.len() as int) == early
        }),
{
    lemma_drive_prefix(m, lat, fees, a, k);
    lemma_drive_prefix(m, lat, fees, b, k);
}

/// A run extends the fills of each of its prefixes.
proof fn lemma_drive_prefix(m: ExchangeModel, lat: LatencyTable, fees: FeeSchedule, a: Seq<ExchangeInput>, k: int)
    requires
        0 <= k <= a.len(),
    ensures
        drive(m, lat, fees, a.subrange(0, k)).1.len() <= drive(m, lat, fees, a).1.len(),
        drive(m, lat, fees, a).1.subrange(0, drive(m, lat, fees, a.subrange(0, k)).1.len() as int)
            == drive(m, lat, fees, a.subrange(0, k)).1,
    decreases a.len(),
{
    if k == a.len() {
        assert(a.subrange(0, k) =~= a);
        let f = drive(m, lat, fees, a).1;
        assert(f.subrange(0, f.len() as int) =~= f);
    } else {
        let shorter = a.drop_last();
        assert(shorter.subrange(0, k) =~= a.subrange(0, k));
        lemma_drive_prefix(m, lat, fees, shorter, k);
        let early = drive(m, lat, fees, a.subrange(0, k)).1;
        let mid = drive(m, lat, fees, shorter).1;
        let full = drive(m, lat, fees, a).1;
        assert(full.len() >= mid.len() && full.subrange(0, mid.len() as int) == mid) by {
            match a.last() {
                ExchangeInput::Event(ev) => {
                    let st = step(drive(m, lat, fees, shorter).0, fees, ev);
                    assert(full == mid + st.1);
                    assert((mid + st.1).subrange(0, mid.len() as int) =~= mid);
                },
                _ => {},
            }
        }
        assert(full.subrange(0, early.len() as int) =~= mid.subrange(0, early.len() as int));
    }
}

/// Fee of a fill of `qty` at `price` at the rate `rate_e8`: the notional `price · qty / 1e8`
/// times the rate, `/ 1e8`, both divisions toward zero.
pub open spec fn fee_at_rate(price: i64, qty: i64, rate_e8: i64) -> i64 {
    let notional = trunc_div(price as int * qty as int, PRICE_SCALE as int) as i64;
    trunc_div(notional as int * rate_e8 as int, PRICE_SCALE as int) as i64
}

/// Maker fee of a fill at the venue's maker rate; 0 when the venue has no rates.
pub open spec fn maker_fee_of(fees: FeeSchedule, venue: Venue, price: i64, qty: i64) -> i64 {
    match fees.rates(venue) {
        Some(r) => fee_at_rate(price, qty, r.maker_rate_e8),
        None => 0,
    }
}

/// Taker fee of a fill at the venue's taker rate; 0 when the venue has no rates.
pub open spec fn taker_fee_of(fees: FeeSchedule, venue: Venue, price: i64, qty: i64) -> i64 {
    match fees.rates(venue) {
        Some(r) => fee_at_rate(price, qty, r.taker_rate_e8),
        None => 0,
    }
}

/// The fills of a trade pass: each belongs to a resting maker order of exactly the traded
/// venue and symbol, is at that order's price and pays the venue's maker rate; every order
/// of another venue or symbol stays, untouched.
proof fn lemma_trade_pass_own_instrument(act: Seq<SimOrder>, tick: TradedTick, venue: Venue, sym: Seq<char>, fees: FeeSchedule, ts: u64)
    ensures
        forall|i: int| 0 <= i < trade_pass(act, tick, venue, sym, fees, ts).1.len() ==> exists|k: int| #![trigger act[k]] {
            let f = #[trigger] trade_pass(act, tick, venue, sym, fees, ts).1[i];
            &&& 0 <= k < act.len()
            &&& act[k].id == f.order_id
            &&& act[k].intent.venue == venue
            &&& act[k].intent.symbol@ == sym
            &&& act[k].intent.kind == OrderKind::Maker
            &&& f.maker
            &&& f.price == act[k].intent.price
            &&& f.fee_e8 == maker_fee_of(fees, venue, f.price, f.qty)
        },
        forall|k: int| 0 <= k < act.len() && !(act[k].intent.venue == venue && act[k].intent.symbol@ == sym)
            ==> trade_pass(act, tick, venue, sym, fees, ts).0.contains(#[trigger] act[k]),
    decreases act.len(),
{
    if act.len() > 0 {
        let t = act.drop_first();
        lemma_trade_pass_own_instrument(t, tick, venue, sym, fees, ts);
        let r = trade_pass(t, tick, venue, sym, fees, ts);
        let whole = trade_pass(act, tick, venue, sym, fees, ts);
        let o = act[0];
        let f = whole.1;
        assert forall|i: int| 0 <= i < f.len() implies exists|k: int| #![trigger act[k]] {
            let g = #[trigger] f[i];
            &&& 0 <= k < act.len()
            &&& act[k].id == g.order_id
            &&& act[k].intent.venue == venue
            &&& act[k].intent.symbol@ == sym
            &&& act[k].intent.kind == OrderKind::Maker
            &&& g.maker
            &&& g.price == act[k].intent.price
            &&& g.fee_e8 == maker_fee_of(fees, venue, g.price, g.qty)
        } by {
            if f.len() == r.1.len() + 1 && i == 0 {
                assert(trades_on(o, venue, sym));
                assert(f[0].order_id == o.id);
            } else {
                let ri = if f.len() == r.1.len() + 1 { i - 1 } else { i };
                assert(f[i] == r.1[ri]);
                let k = choose|k: int| #![trigger t[k]] {
                    let g = r.1[ri];
                    &&& 0 <= k < t.len()
                    &&& t[k].id == g.order_id
                    &&& t[k].intent.venue == venue
                    &&& t[k].intent.symbol@ == sym
                    &&& t[k].intent.kind == OrderKind::Maker
                    &&& g.maker
                    &&& g.price == t[k].intent.price
                    &&& g.fee_e8 == maker_fee_of(fees, venue, g.price, g.qty)
                };
                assert(t[k] == act[k + 1]);
            }
        }
        assert forall|k: int| 0 <= k < act.len() && !(act[k].intent.venue == venue && act[k].intent.symbol@ == sym)
            implies whole.0.contains(#[trigger] act[k]) by {
            if k == 0 {
                assert(!trades_on(o, venue, sym));
                assert(whole.0[0] == o);
            } else {
                assert(act[k] == t[k - 1]);
                assert(r.0.contains(t[k - 1]));
                let w = choose|w: int| 0 <= w < r.0.len() && r.0[w] == t[k - 1];
                if trades_on(o, venue, sym) && tick_fill_qty(o, tick) > 0 && tick_queue(o, tick).filled >= o.intent.qty {
                    assert(whole.0 == r.0);
                    assert(whole.0[w] == act[k]);
                } else {
                    assert(whole.0.len() == r.0.len() + 1);
                    assert(whole.0[w + 1] == r.0[w]);
                }
            }
        }
    }
}

/// The fills of maturing taker orders belong to pending orders and pay their venue's taker
/// rate.
proof fn lemma_activation_taker_fees(pend: Seq<PendingOrder>, books: Seq<BookView>, fees: FeeSchedule, seq: u64, ts: u64)
    ensures
        forall|i: int| 0 <= i < activation(pend, books, fees, seq, ts).2.len() ==> exists|j: int| #![trigger pend[j]] {
            let f = #[trigger] activation(pend, books, fees, seq, ts).2[i];
            &&& 0 <= j < pend.len()
            &&& pend[j].id == f.order_id
            &&& !f.maker
            &&& f.fee_e8 == taker_fee_of(fees, pend[j].intent.venue, f.price, f.qty)
        },
    decreases pend.len(),
{
    if pend.len() > 0 {
        let t = pend.drop_first();
        lemma_activation_taker_fees(t, books, fees, seq, ts);
        let rest = activation(t, books, fees, seq, ts).2;
        let all = activation(pend, books, fees, seq, ts).2;
        let p = pend[0];
        assert forall|i: int| 0 <= i < all.len() implies exists|j: int| #![trigger pend[j]] {
            let f = #[trigger] all[i];
            &&& 0 <= j < pend.len()
            &&& pend[j].id == f.order_id
            &&& !f.maker
            &&& f.fee_e8 == taker_fee_of(fees, pend[j].intent.venue, f.price, f.qty)
        } by {
            if p.effective_ts_mono_ns <= ts && p.intent.kind != OrderKind::Maker {
                let tf = taker_sim_fills(p, books, fees, seq, ts);
                assert(all == tf + rest);
                if i < tf.len() {
                    assert(all[i] == tf[i]);
                    assert(pend[0].id == all[i].order_id);
                } else {
                    assert(all[i] == rest[i - tf.len()]);
                    let j = choose|j: int| #![trigger t[j]] {
                        let f = rest[i - tf.len()];
                        &&& 0 <= j < t.len()
                        &&& t[j].id == f.order_id
                        &&& !f.maker
                        &&& f.fee_e8 == taker_fee_of(fees, t[j].intent.venue, f.price, f.qty)
                    };
                    assert(t[j] == pend[j + 1]);
                }
            } else {
                assert(all == rest);
                let j = choose|j: int| #![trigger t[j]] {
                    let f = rest[i];
                    &&& 0 <= j < t.len()
                    &&& t[j].id == f.order_id
                    &&& !f.maker
                    &&& f.fee_e8 == taker_fee_of(fees, t[j].intent.venue, f.price, f.qty)
                };
                assert(t[j] == pend[j + 1]);
            }
        }
    }
}

/// Fees follow the side of the book a fill took: a maker fill pays the venue's maker rate and
/// a taker fill its taker rate. On a trade event of (venue, symbol), every maker fill belongs
/// to a resting maker order of exactly that venue and symbol, at its own price; every resting
/// order of another venue or symbol stays open, unchanged. Taker fills belong to pending
/// orders that matured on this event.
pub proof fn law_fills_own_instrument_and_rate(m: ExchangeModel, fees: FeeSchedule, ev: Event)
    ensures
        forall|i: int| 0 <= i < step(m, fees, ev).1.len() && !(#[trigger] step(m, fees, ev).1[i]).maker ==> exists|j: int| #![trigger m.pending[j]] {
            let f = step(m, fees, ev).1[i];
            &&& 0 <= j < m.pending.len()
            &&& m.pending[j].id == f.order_id
            &&& f.fee_e8 == taker_fee_of(fees, m.pending[j].intent.venue, f.price, f.qty)
        },
        match ev.kind {
            EventKind::Md(md) => match md.payload {
                MdPayload::Trade { .. } => {
                    let act = active_before_effect(m, fees, ev);
                    &&& forall|i: int| 0 <= i < step(m, fees, ev).1.len() && (#[trigger] step(m, fees, ev).1[i]).maker ==> exists|k: int| #![trigger act[k]] {
                        let f = step(m, fees, ev).1[i];
                        &&& 0 <= k < act.len()
                        &&& act[k].id == f.order_id
                        &&& act[k].intent.venue == md.venue
                        &&& act[k].intent.symbol@ == md.symbol@
                        &&& f.price == act[k].intent.price
                        &&& f.fee_e8 == maker_fee_of(fees, md.venue, f.price, f.qty)
                    }
                    &&& forall|k: int| 0 <= k < act.len() && !(act[k].intent.venue == md.venue && act[k].intent.symbol@ == md.symbol@)
                        ==> step(m, fees, ev).0.active.contains(#[trigger] act[k])
                },
                _ => forall|i: int| 0 <= i < step(m, fees, ev).1.len() ==> !(#[trigger] step(m, fees, ev).1[i]).maker,
            },
            EventKind::Sys(_) => forall|i: int| 0 <= i < step(m, fees, ev).1.len() ==> !(#[trigger] step(m, fees, ev).1[i]).maker,
        },
{
    let a = activation(m.pending, m.books, fees, ev.seq, ev.ts_mono_ns);
    lemma_activation_taker_fees(m.pending, m.books, fees, ev.seq, ev.ts_mono_ns);
    lemma_activation_fills(m.pending, m.books, fees, ev.seq, ev.ts_mono_ns);
    let f = step(m, fees, ev).1;
    match ev.kind {
        EventKind::Md(md) => match md.payload {
            MdPayload::Trade { price, size, side, .. } => {
                let tick = TradedTick { price, qty: size, side, seq: ev.seq };
                let act = active_before_effect(m, fees, ev);
                lemma_trade_pass_own_instrument(act, tick, md.venue, md.symbol@, fees, ev.ts_mono_ns);
                let t = trade_pass(act, tick, md.venue, md.symbol@, fees, ev.ts_mono_ns);
                assert(f == a.2 + t.1);
                assert(step(m, fees, ev).0.active == t.0);
                assert forall|i: int| 0 <= i < f.len() && !(#[trigger] f[i]).maker implies exists|j: int| #![trigger m.pending[j]] {
                    &&& 0 <= j < m.pending.len()
                    &&& m.pending[j].id == f[i].order_id
                    &&& f[i].fee_e8 == taker_fee_of(fees, m.pending[j].intent.venue, f[i].price, f[i].qty)
                } by {
                    if i >= a.2.len() {
                        assert(f[i] == t.1[i - a.2.len()]);
                        let k = choose|k: int| #![trigger act[k]] {
                            let g = t.1[i - a.2.len()];
                            &&& 0 <= k < act.len()
                            &&& act[k].id == g.order_id
                            &&& act[k].intent.venue == md.venue
                            &&& act[k].intent.symbol@ == md.symbol@
                            &&& act[k].intent.kind == OrderKind::Maker
                            &&& g.maker
                            &&& g.price == act[k].intent.price
                            &&& g.fee_e8 == maker_fee_of(fees, md.venue, g.price, g.qty)
                        };
                    } else {
                        assert(f[i] == a.2[i]);
                    }
                }
                assert forall|i: int| 0 <= i < f.len() && (#[trigger] f[i]).maker implies exists|k: int| #![trigger act[k]] {
                    &&& 0 <= k < act.len()
                    &&& act[k].id == f[i].order_id
                    &&& act[k].intent.venue == md.venue
                    &&& act[k].intent.symbol@ == md.symbol@
                    &&& f[i].price == act[k].intent.price
                    &&& f[i].fee_e8 == maker_fee_of(fees, md.venue, f[i].price, f[i].qty)
                } by {
                    if i < a.2.len() {
                        assert(f[i] == a.2[i]);
                    } else {
                        assert(f[i] == t.1[i - a.2.len()]);
                        let k = choose|k: int| #![trigger act[k]] {
                            let g = t.1[i - a.2.len()];
                            &&& 0 <= k < act.len()
                            &&& act[k].id == g.order_id
                            &&& act[k].intent.venue == md.venue
                            &&& act[k].intent.symbol@ == md.symbol@
                            &&& act[k].intent.kind == OrderKind::Maker
                            &&& g.maker
                            &&& g.price == act[k].intent.price
                            &&& g.fee_e8 == maker_fee_of(fees, md.venue, g.price, g.qty)
                        };
                    }
                }
            },
            _ => {
                assert(f == a.2);
            },
        },
        EventKind::Sys(_) => {
            assert(f == a.2);
        },
    }
}

/// The model of an exchange built by `new` with this seed.
pub open spec fn fresh_model(seed: u64) -> ExchangeModel {
    ExchangeModel {
        books: Seq::empty(),
        pending: Seq::empty(),
        cancels: Seq::empty(),
        active: Seq::empty(),
        rng: seed,
        next_id: 1,
        last_seq: None,
        last_ts_mono_ns: 0,
    }
}

/// The fills with a sequence number at most `s`, in order.
pub open spec fn fills_up_to(f: Seq<SimFill>, s: u64) -> Seq<SimFill> {
    f.filter(|x: SimFill| x.seq <= s)
}

proof fn lemma_fills_up_to_none(f: Seq<SimFill>, s: u64)
    requires
        forall|i: int| 0 <= i < f.len() ==> (#[trigger] f[i]).seq > s,
    ensures
        fills_up_to(f, s) == Seq::<SimFill>::empty(),
    decreases f.len(),
{
    reveal(Seq::filter);
    if f.len() > 0 {
        let d = f.drop_last();
        assert forall|i: int| 0 <= i < d.len() implies (#[trigger] d[i]).seq > s by {
            assert(d[i] == f[i]);
        }
        lemma_fills_up_to_none(d, s);
        assert(f.last() == f[f.len() - 1]);
    }
}

/// Maker fills of a trade carry the tick's sequence number.
proof fn lemma_trade_pass_seq(act: Seq<SimOrder>, tick: TradedTick, venue: Venue, sym: Seq<char>, fees: FeeSchedule, ts: u64)
    ensures
        forall|i: int| 0 <= i < trade_pass(act, tick, venue, sym, fees, ts).1.len()
            ==> (#[trigger] trade_pass(act, tick, venue, sym, fees, ts).1[i]).seq == tick.seq,
    decreases act.len(),
{
    if act.len() > 0 {
        let t = act.drop_first();
        lemma_trade_pass_seq(t, tick, venue, sym, fees, ts);
        let rest = trade_pass(t, tick, venue, sym, fees, ts).1;
        let f = trade_pass(act, tick, venue, sym, fees, ts).1;
        assert forall|i: int| 0 <= i < f.len() implies (#[trigger] f[i]).seq == tick.seq by {
            if f.len() == rest.len() + 1 {
                assert(f == seq![f[0]] + rest);
                if i > 0 {
                    assert(f[i] == rest[i - 1]);
                }
            } else {
                assert(f == rest);
            }
        }
    }
}

/// Every fill of an event carries the event's sequence number.
proof fn lemma_step_fills_seq(m: ExchangeModel, fees: FeeSchedule, ev: Event)
    ensures
        forall|i: int| 0 <= i < step(m, fees, ev).1.len() ==> (#[trigger] step(m, fees, ev).1[i]).seq == ev.seq,
{
    let a = activation(m.pending, m.books, fees, ev.seq, ev.ts_mono_ns);
    lemma_activation_fills(m.pending, m.books, fees, ev.seq, ev.ts_mono_ns);
    let f = step(m, fees, ev).1;
    match ev.kind {
        EventKind::Md(md) => match md.payload {
            MdPayload::Trade { price, size, side, .. } => {
                let tick = TradedTick { price, qty: size, side, seq: ev.seq };
                let act = active_before_effect(m, fees, ev);
                lemma_trade_pass_seq(act, tick, md.venue, md.symbol@, fees, ev.ts_mono_ns);
                let t = trade_pass(act, tick, md.venue, md.symbol@, fees, ev.ts_mono_ns).1;
                assert(f == a.2 + t);
                assert forall|i: int| 0 <= i < f.len() implies (#[trigger] f[i]).seq == ev.seq by {
                    if i >= a.2.len() {
                        assert(f[i] == t[i - a.2.len()]);
                    }
                }
            },
            _ => {},
        },
        EventKind::Sys(_) => {},
    }
}

/// Calls after position `k` whose events all have sequence numbers above `s` add no fill
/// with a sequence number at most `s`.
proof fn lemma_drive_tail(m: ExchangeModel, lat: LatencyTable, fees: FeeSchedule, a: Seq<ExchangeInput>, k: int, s: u64)
    requires
        0 <= k <= a.len(),
        forall|i: int| k <= i < a.len() ==> match #[trigger] a[i] {
            ExchangeInput::Event(ev) => ev.seq > s,
            _ => true,
        },
    ensures
        fills_up_to(drive(m, lat, fees, a).1, s) == fills_up_to(drive(m, lat, fees, a.subrange(0, k)).1, s),
    decreases a.len(),
{
    if k == a.len() {
        assert(a.subrange(0, k) =~= a);
    } else {
        let shorter = a.drop_last();
        assert(shorter.subrange(0, k) =~= a.subrange(0, k));
        assert forall|i: int| k <= i < shorter.len() implies match #[trigger] shorter[i] {
            ExchangeInput::Event(ev) => ev.seq > s,
            _ => true,
        } by {
            assert(shorter[i] == a[i]);
        }
        lemma_drive_tail(m, lat, fees, shorter, k, s);
        assert(a.last() == a[a.len() - 1]);
        match a.last() {
            ExchangeInput::Event(ev) => {
                let st = step(drive(m, lat, fees, shorter).0, fees, ev);
                lemma_step_fills_seq(drive(m, lat, fees, shorter).0, fees, ev);
                lemma_fills_up_to_none(st.1, s);
                Seq::filter_distributes_over_add(drive(m, lat, fees, shorter).1, st.1, |x: SimFill| x.seq <= s);
                assert(fills_up_to(drive(m, lat, fees, shorter).1, s) + Seq::<SimFill>::empty() =~= fills_up_to(drive(m, lat, fees, shorter).1, s));
            },
            _ => {},
        }
    }
}

/// Replay is bit-identical and never looks ahead: two exchanges built by `new` with the
/// same seed, latency table and fees, given the same calls up to position `k`, after which
/// every event either one receives has a sequence number above `s`, hand out exactly the same
/// fills with sequence number at most `s`.
pub proof fn law_same_prefix_same_fills(seed: u64, lat: LatencyTable, fees: FeeSchedule, a: Seq<ExchangeInput>, b: Seq<ExchangeInput>, k: int, s: u64)
    requires
        0 <= k <= a.len(),
        k <= b.len(),
        a.subrange(0, k) == b.subrange(0, k),
        forall|i: int| k <= i < a.len() ==> match #[trigger] a[i] {
            ExchangeInput::Event(ev) => ev.seq > s,
            _ => true,
        },
        forall|i: int| k <= i < b.len() ==> match #[trigger] b[i] {
            ExchangeInput::Event(ev) => ev.seq > s,
            _ => true,
        },
    ensures
        fills_up_to(drive(fresh_model(seed), lat, fees, a).1, s) == fills_up_to(drive(fresh_model(seed), lat, fees, b).1, s),
{
    lemma_drive_tail(fresh_model(seed), lat, fees, a, k, s);
    lemma_drive_tail(fresh_model(seed), lat, fees, b, k, s);
}

/// Taker fills of maturing orders are not maker fills and carry the event's sequence
/// number and clock.
proof fn lemma_activation_fills(pend: Seq<PendingOrder>, books: Seq<BookView>, fees: FeeSchedule, seq: u64, ts: u64)
    ensures
        forall|i: int| 0 <= i < activation(pend, books, fees, seq, ts).2.len() ==> {
            let f = #[trigger] activation(pend, books, fees, seq, ts).2[i];
            !f.maker && f.seq == seq && f.ts_mono_ns == ts
        },
    decreases pend.len(),
{
    if pend.len() > 0 {
        lemma_activation_fills(pend.drop_first(), books, fees, seq, ts);
        let rest = activation(pend.drop_first(), books, fees, seq, ts).2;
        let p = pend[0];
        if p.effective_ts_mono_ns <= ts && p.intent.kind != OrderKind::Maker {
            let tf = taker_sim_fills(p, books, fees, seq, ts);
            let all = activation(pend, books, fees, seq, ts).2;
            assert(all == tf + rest);
            assert forall|i: int| 0 <= i < all.len() implies {
                let f = #[trigger] all[i];
                !f.maker && f.seq == seq && f.ts_mono_ns == ts
            } by {
                if i >= tf.len() {
                    assert(all[i] == rest[i - tf.len()]);
                }
            }
        }
    }
}

/// The fills of one event all carry its sequence number and clock; the maker fills among
/// them (those of its trade) come by strictly ascending order id, after the taker fills of
/// the orders that matured on it.
pub proof fn law_event_fills(m: ExchangeModel, fees: FeeSchedule, ev: Event)
    requires
        ids_ascending(active_before_effect(m, fees, ev)),
        event_in_range(m, fees, ev),
    ensures
        forall|i: int| 0 <= i < step(m, fees, ev).1.len() ==> (#[trigger] step(m, fees, ev).1[i]).seq == ev.seq
            && step(m, fees, ev).1[i].ts_mono_ns == ev.ts_mono_ns,
        forall|i: int, j: int| 0 <= i < j < step(m, fees, ev).1.len() && (#[trigger] step(m, fees, ev).1[i]).maker ==> {
            &&& (#[trigger] step(m, fees, ev).1[j]).maker
            &&& step(m, fees, ev).1[i].order_id < step(m, fees, ev).1[j].order_id
        },
{
    let a = activation(m.pending, m.books, fees, ev.seq, ev.ts_mono_ns);
    let act = active_before_effect(m, fees, ev);
    lemma_activation_fills(m.pending, m.books, fees, ev.seq, ev.ts_mono_ns);
    let f = step(m, fees, ev).1;
    match ev.kind {
        EventKind::Md(md) => match md.payload {
            MdPayload::Trade { price, size, side, .. } => {
                let tick = TradedTick { price, qty: size, side, seq: ev.seq };
                law_trade_fills_by_ascending_id(act, tick, md.venue, md.symbol@, fees, ev.ts_mono_ns);
                let t = trade_pass(act, tick, md.venue, md.symbol@, fees, ev.ts_mono_ns).1;
                assert(f == a.2 + t);
                assert forall|i: int| 0 <= i < f.len() implies (#[trigger] f[i]).seq == ev.seq && f[i].ts_mono_ns == ev.ts_mono_ns by {
                    if i >= a.2.len() {
                        assert(f[i] == t[i - a.2.len()]);
                    }
                }
                assert forall|i: int, j: int| 0 <= i < j < f.len() && (#[trigger] f[i]).maker implies {
                    &&& (#[trigger] f[j]).maker
                    &&& f[i].order_id < f[j].order_id
                } by {
                    assert(i >= a.2.len());
                    assert(f[i] == t[i - a.2.len()]);
                    assert(f[j] == t[j - a.2.len()]);
                }
            },
            _ => {},
        },
        EventKind::Sys(_) => {},
    }
}

/// Book views in the model.
spec fn books_view(s: Seq<BookSlot>) -> Seq<BookView> {
    s.map_values(|b: BookSlot| (b.venue, b.symbol@, b.book.side(Side::Buy), b.book.side(Side::Sell)))
}

/// Ids strictly ascend along the list: no id occurs twice.
pub open spec fn ids_ascending(s: Seq<SimOrder>) -> bool {
    forall|i: int, j: int| 0 <= i < j < s.len() ==> (#[trigger] s[i]).id < (#[trigger] s[j]).id
}

/// Ids of pending orders strictly ascend along the list (the order of submission).
pub open spec fn pending_ids_ascending(s: Seq<PendingOrder>) -> bool {
    forall|i: int, j: int| 0 <= i < j < s.len() ==> (#[trigger] s[i]).id < (#[trigger] s[j]).id
}

/// Every open order has its own id, below the next one to be given out: pending orders and
/// active orders each ascend by id, and no id is both pending and active.
pub open spec fn ids_consistent(pend: Seq<PendingOrder>, act: Seq<SimOrder>, next_id: u64) -> bool {
    &&& pending_ids_ascending(pend)
    &&& ids_ascending(act)
    &&& forall|i: int| 0 <= i < pend.len() ==> (#[trigger] pend[i]).id < next_id
    &&& forall|j: int| 0 <= j < act.len() ==> (#[trigger] act[j]).id < next_id
    &&& forall|i: int, j: int| 0 <= i < pend.len() && 0 <= j < act.len() ==> (#[trigger] pend[i]).id != (#[trigger] act[j]).id
}

/// Removing pending orders keeps the others, in order.
proof fn lemma_remove_pending_keeps(s: Seq<PendingOrder>, id: u64)
    ensures
        forall|i: int| 0 <= i < remove_pending(s, id).len() ==> exists|j: int| 0 <= j < s.len() && #[trigger] remove_pending(s, id)[i] == s[j],
        pending_ids_ascending(s) ==> pending_ids_ascending(remove_pending(s, id)),
    decreases s.len(),
{
    if s.len() > 0 {
        let t = s.drop_first();
        lemma_remove_pending_keeps(t, id);
        let rt = remove_pending(t, id);
        let r = remove_pending(s, id);
        assert forall|i: int| 0 <= i < r.len() implies exists|j: int| 0 <= j < s.len() && #[trigger] r[i] == s[j] by {
            if s[0].id == id {
                let j = choose|j: int| 0 <= j < t.len() && rt[i] == t[j];
                assert(r[i] == s[j + 1]);
            } else if i == 0 {
                assert(r[0] == s[0]);
            } else {
                assert(r[i] == rt[i - 1]);
                let j = choose|j: int| 0 <= j < t.len() && rt[i - 1] == t[j];
                assert(r[i] == s[j + 1]);
            }
        }
        if pending_ids_ascending(s) {
            assert forall|a: int, b: int| 0 <= a < b < t.len() implies (#[trigger] t[a]).id < (#[trigger] t[b]).id by {
                assert(t[a] == s[a + 1] && t[b] == s[b + 1]);
            }
            assert forall|a: int, b: int| 0 <= a < b < r.len() implies (#[trigger] r[a]).id < (#[trigger] r[b]).id by {
                if s[0].id != id && a == 0 {
                    assert(r[b] == rt[b - 1]);
                    let j = choose|j: int| 0 <= j < t.len() && rt[b - 1] == t[j];
                    assert(rt[b - 1] == s[j + 1]);
                } else if s[0].id != id {
                    assert(r[a] == rt[a - 1] && r[b] == rt[b - 1]);
                }
            }
        }
    }
}

/// Removing active orders keeps the others, in order.
proof fn lemma_remove_active_keeps(s: Seq<SimOrder>, id: u64)
    ensures
        forall|i: int| 0 <= i < remove_active(s, id).len() ==> exists|j: int| 0 <= j < s.len() && #[trigger] remove_active(s, id)[i] == s[j],
    decreases s.len(),
{
    if s.len() > 0 {
        let t = s.drop_first();
        lemma_remove_active_keeps(t, id);
        let rt = remove_active(t, id);
        let r = remove_active(s, id);
        assert forall|i: int| 0 <= i < r.len() implies exists|j: int| 0 <= j < s.len() && #[trigger] r[i] == s[j] by {
            if s[0].id == id {
                let j = choose|j: int| 0 <= j < t.len() && rt[i] == t[j];
                assert(r[i] == s[j + 1]);
            } else if i == 0 {
                assert(r[0] == s[0]);
            } else {
                assert(r[i] == rt[i - 1]);
                let j = choose|j: int| 0 <= j < t.len() && rt[i - 1] == t[j];
                assert(r[i] == s[j + 1]);
            }
        }
    }
}


/// The instrument of the first pending order with this id.
pub open spec fn pending_key(s: Seq<PendingOrder>, id: u64) -> Option<(Venue, Seq<char>)>
    decreases s.len(),
{
    if s.len() == 0 {
        None
    } else if s[0].id == id {
        Some((s[0].intent.venue, s[0].intent.symbol@))
    } else {
        pending_key(s.drop_first(), id)
    }
}

/// The instrument of the first active order with this id.
pub open spec fn active_key(s: Seq<SimOrder>, id: u64) -> Option<(Venue, Seq<char>)>
    decreases s.len(),
{
    if s.len() == 0 {
        None
    } else if s[0].id == id {
        Some((s[0].intent.venue, s[0].intent.symbol@))
    } else {
        active_key(s.drop_first(), id)
    }
}

/// The instrument of an open order (pending first, then active), if the id is open.
pub open spec fn open_order_key(m: ExchangeModel, id: u64) -> Option<(Venue, Seq<char>)> {
    match pending_key(m.pending, id) {
        Some(k) => Some(k),
        None => active_key(m.active, id),
    }
}

proof fn lemma_count_below(s: Seq<SimOrder>, id: u64, i: int)
    requires
        ids_ascending(s),
        0 <= i <= s.len(),
        forall|j: int| 0 <= j < i ==> (#[trigger] s[j]).id < id,
        i < s.len() ==> s[i].id >= id,
    ensures
        count_below(s, id) == i,
    decreases s.len(),
{
    if s.len() > 0 {
        let t = s.drop_first();
        assert forall|a: int, b: int| 0 <= a < b < t.len() implies (#[trigger] t[a]).id < (#[trigger] t[b]).id by {
            assert(t[a] == s[a + 1]);
            assert(t[b] == s[b + 1]);
        }
        if i == 0 {
            assert forall|j: int| 0 <= j < t.len() implies (#[trigger] t[j]).id >= id by {
                assert(t[j] == s[j + 1]);
                assert(s[0].id < s[j + 1].id);
            }
            lemma_count_below_none(t, id);
        } else {
            assert forall|j: int| 0 <= j < i - 1 implies (#[trigger] t[j]).id < id by {
                assert(t[j] == s[j + 1]);
            }
            if i - 1 < t.len() {
                assert(t[i - 1] == s[i]);
            }
            lemma_count_below(t, id, i - 1);
        }
    }
}

proof fn lemma_count_below_none(s: Seq<SimOrder>, id: u64)
    requires
        forall|j: int| 0 <= j < s.len() ==> (#[trigger] s[j]).id >= id,
    ensures
        count_below(s, id) == 0,
    decreases s.len(),
{
    if s.len() > 0 {
        let t = s.drop_first();
        assert forall|j: int| 0 <= j < t.len() implies (#[trigger] t[j]).id >= id by {
            assert(t[j] == s[j + 1]);
        }
        lemma_count_below_none(t, id);
    }
}

proof fn lemma_count_below_le(s: Seq<SimOrder>, id: u64)
    ensures
        count_below(s, id) <= s.len(),
    decreases s.len(),
{
    if s.len() > 0 {
        lemma_count_below_le(s.drop_first(), id);
    }
}

/// A maturing maker with a fresh id, above every id still pending before it and below
/// every id pending after it, keeps the ids of the open orders consistent.
proof fn lemma_activation_keeps_ids(pend: Seq<PendingOrder>, a: Seq<SimOrder>, o: SimOrder, rest: Seq<PendingOrder>, n: u64)
    requires
        ids_consistent(pend, a, n),
        ids_ascending(insert_by_id(a, o)),
        o.id < n,
        forall|j: int| 0 <= j < a.len() ==> (#[trigger] a[j]).id != o.id,
        forall|i: int| 0 <= i < pend.len() ==> (#[trigger] pend[i]).id < o.id,
        forall|b: int| 0 <= b < rest.len() ==> (#[trigger] rest[b]).id > o.id,
        forall|b: int, j: int| 0 <= b < rest.len() && 0 <= j < a.len() ==> (#[trigger] rest[b]).id != (#[trigger] a[j]).id,
    ensures
        ids_consistent(pend, insert_by_id(a, o), n),
        forall|b: int, j: int| 0 <= b < rest.len() && 0 <= j < insert_by_id(a, o).len() ==> (#[trigger] rest[b]).id
            != (#[trigger] insert_by_id(a, o)[j]).id,
{
    let c = count_below(a, o.id) as int;
    lemma_count_below_le(a, o.id);
    let na = insert_by_id(a, o);
    assert(na == a.insert(c, o));
    assert forall|j: int| 0 <= j < na.len() implies (#[trigger] na[j]).id < n by {
        if j < c { assert(na[j] == a[j]); } else if j > c { assert(na[j] == a[j - 1]); }
    }
    assert forall|i: int, j: int| 0 <= i < pend.len() && 0 <= j < na.len() implies (#[trigger] pend[i]).id != (#[trigger] na[j]).id by {
        if j < c { assert(na[j] == a[j]); } else if j > c { assert(na[j] == a[j - 1]); }
    }
    assert forall|b: int, j: int| 0 <= b < rest.len() && 0 <= j < na.len() implies (#[trigger] rest[b]).id != (#[trigger] na[j]).id by {
        if j < c { assert(na[j] == a[j]); } else if j > c { assert(na[j] == a[j - 1]); }
    }
}

/// Insert an order with a new id, keeping the ascending order of ids.
fn insert_active(v: &mut Vec<SimOrder>, o: SimOrder)
    requires
        ids_ascending(old(v)@),
        forall|j: int| 0 <= j < old(v)@.len() ==> (#[trigger] old(v)@[j]).id != o.id,
    ensures
        final(v)@ == insert_by_id(old(v)@, o),
        ids_ascending(final(v)@),
{
    let ghost s0 = v@;
    let mut i: usize = 0;
    while i < v.len() && v[i].id < o.id
        invariant
            i <= v@.len(),
            v@ == s0,
            forall|j: int| 0 <= j < i ==> (#[trigger] v@[j]).id < o.id,
        decreases v@.len() - i,
    {
        i = i + 1;
    }
    proof {
        lemma_count_below(s0, o.id, i as int);
    }
    v.insert(i, o);
    proof {
        let s = v@;
        let n = i as int;
        if n < s0.len() {
            assert(s0[n].id > o.id);
        }
        assert forall|a: int, b: int| 0 <= a < b < s.len() implies (#[trigger] s[a]).id < (#[trigger] s[b]).id by {
            if b < n {
                assert(s0[a].id < s0[b].id);
            } else if b == n {
            } else if a < n {
                assert(s[b] == s0[b - 1]);
                assert(s0[a].id < s0[b - 1].id);
            } else if a == n {
                assert(s[b] == s0[b - 1]);
                if b - 1 > n {
                    assert(s0[n].id < s0[b - 1].id);
                }
            } else {
                assert(s[a] == s0[a - 1]);
                assert(s[b] == s0[b - 1]);
                assert(s0[a - 1].id < s0[b - 1].id);
            }
        }
    }
}

/// Drop the pending orders with this id.
fn remove_pending_id(v: &mut Vec<PendingOrder>, id: u64)
    ensures
        final(v)@ == remove_pending(old(v)@, id),
{
    let mut src: Vec<PendingOrder> = Vec::new();
    core::mem::swap(&mut src, v);
    let ghost orig = src@;
    assert(v@ + remove_pending(src@, id) =~= remove_pending(orig, id));
    while src.len() > 0
        invariant
            v@ + remove_pending(src@, id) == remove_pending(orig, id),
        decreases src@.len(),
    {
        let ghost s = src@;
        let x = src.remove(0);
        assert(s.drop_first() =~= src@);
        if x.id != id {
            assert(v@.push(x) + remove_pending(src@, id) =~= v@ + (seq![x] + remove_pending(src@, id)));
            v.push(x);
        }
    }
    assert(v@ + remove_pending(src@, id) =~= v@);
}

/// Drop the active orders with this id, keeping the order of the others.
fn remove_active_id(v: &mut Vec<SimOrder>, id: u64)
    requires
        ids_ascending(old(v)@),
    ensures
        final(v)@ == remove_active(old(v)@, id),
        ids_ascending(final(v)@),
{
    let mut src: Vec<SimOrder> = Vec::new();
    core::mem::swap(&mut src, v);
    let ghost orig = src@;
    assert(v@ + remove_active(src@, id) =~= remove_active(orig, id));
    while src.len() > 0
        invariant
            v@ + remove_active(src@, id) == remove_active(orig, id),
            ids_ascending(v@),
            ids_ascending(src@),
            forall|a: int, b: int| 0 <= a < v@.len() && 0 <= b < src@.len() ==> (#[trigger] v@[a]).id < (#[trigger] src@[b]).id,
        decreases src@.len(),
    {
        let ghost s = src@;
        let x = src.remove(0);
        assert(s.drop_first() =~= src@);
        assert forall|a: int, b: int| 0 <= a < b < src@.len() implies (#[trigger] src@[a]).id < (#[trigger] src@[b]).id by {
            assert(src@[a] == s[a + 1]);
            assert(src@[b] == s[b + 1]);
        }
        assert forall|b: int| 0 <= b < src@.len() implies x.id < (#[trigger] src@[b]).id by {
            assert(src@[b] == s[b + 1]);
        }
        if x.id != id {
            assert(v@.push(x) + remove_active(src@, id) =~= v@ + (seq![x] + remove_active(src@, id)));
            assert forall|a: int, b: int| 0 <= a < v@.len() + 1 && 0 <= b < src@.len() implies (#[trigger] v@.push(x)[a]).id < (#[trigger] src@[b]).id by {
                if a < v@.len() {
                    assert(src@[b] == s[b + 1]);
                }
            }
            v.push(x);
        } else {
            assert forall|a: int, b: int| 0 <= a < v@.len() && 0 <= b < src@.len() implies (#[trigger] v@[a]).id < (#[trigger] src@[b]).id by {
                assert(src@[b] == s[b + 1]);
            }
        }
    }
    assert(v@ + remove_active(src@, id) =~= v@);
}

/// Index of the instrument's book slot.
fn find_book(books: &Vec<BookSlot>, venue: Venue, symbol: &str) -> (r: Option<usize>)
    requires
        forall|i: int, j: int| 0 <= i < j < books@.len() ==> !((#[trigger] books@[i]).venue == (#[trigger] books@[j]).venue
            && books@[i].symbol@ == books@[j].symbol@),
    ensures
        r is None ==> book_index(books_view(books@), venue, symbol@) is None,
        r matches Some(i) ==> book_index(books_view(books@), venue, symbol@) == Some(i as int) && i < books@.len(),
{
    let ghost bv = books_view(books@);
    let mut i: usize = 0;
    while i < books.len()
        invariant
            i <= books@.len(),
            bv == books_view(books@),
            forall|i: int, j: int| 0 <= i < j < books@.len() ==> !((#[trigger] books@[i]).venue == (#[trigger] books@[j]).venue
                && books@[i].symbol@ == books@[j].symbol@),
            forall|j: int| 0 <= j < i ==> !(bv[j].0 == venue && bv[j].1 == symbol@),
        decreases books@.len() - i,
    {
        if books[i].venue == venue && str_eq(books[i].symbol.as_str(), symbol) {
            proof {
                assert(bv[i as int].0 == venue && bv[i as int].1 == symbol@);
                let c = choose|c: int| 0 <= c < bv.len() && bv[c].0 == venue && bv[c].1 == symbol@;
                if c != i as int {
                    if c < i {
                    } else {
                        assert(!(books@[i as int].venue == books@[c].venue && books@[i as int].symbol@ == books@[c].symbol@));
                    }
                }
            }
            return Some(i);
        }
        i = i + 1;
    }
    None
}

/// `price · qty / 1e8` as the notional of a fill.
fn notional_of(price: i64, qty: i64) -> (r: i64)
    ensures
        r == notional_e8(price, qty),
{
    assert(i64::MIN * i64::MAX <= (price as int) * (qty as int) <= i64::MIN * i64::MIN) by (nonlinear_arith);
    let prod = price as i128 * qty as i128;
    let n: i128 = prod / (PRICE_SCALE as i128);
    n as i64
}

/// Fee of a fill, 0 when the venue has no rates.
fn fee_or_zero(fees: &FeeSchedule, venue: Venue, symbol: &str, maker: bool, notional: i64) -> (r: i64)
    ensures
        r == fill_fee(*fees, venue, maker, notional),
{
    match fees.fee_e8(venue, symbol, maker, notional) {
        Ok(f) => f,
        Err(_) => 0,
    }
}


/// Instrument of the first pending order with this id.
fn pending_instrument(v: &Vec<PendingOrder>, id: u64) -> (r: Option<(Venue, String)>)
    ensures
        r is None ==> pending_key(v@, id) is None,
        r matches Some(k) ==> pending_key(v@, id) == Some((k.0, k.1@)),
{
    let mut i: usize = 0;
    assert(v@.subrange(0, v@.len() as int) =~= v@);
    while i < v.len()
        invariant
            i <= v@.len(),
            pending_key(v@, id) == pending_key(v@.subrange(i as int, v@.len() as int), id),
        decreases v@.len() - i,
    {
        let ghost rest = v@.subrange(i as int, v@.len() as int);
        assert(rest.drop_first() =~= v@.subrange(i as int + 1, v@.len() as int));
        if v[i].id == id {
            return Some((v[i].intent.venue, v[i].intent.symbol.as_str().to_owned()));
        }
        i = i + 1;
    }
    None
}

/// Instrument of the first active order with this id.
fn active_instrument(v: &Vec<SimOrder>, id: u64) -> (r: Option<(Venue, String)>)
    ensures
        r is None ==> active_key(v@, id) is None,
        r matches Some(k) ==> active_key(v@, id) == Some((k.0, k.1@)),
{
    let mut i: usize = 0;
    assert(v@.subrange(0, v@.len() as int) =~= v@);
    while i < v.len()
        invariant
            i <= v@.len(),
            active_key(v@, id) == active_key(v@.subrange(i as int, v@.len() as int), id),
        decreases v@.len() - i,
    {
        let ghost rest = v@.subrange(i as int, v@.len() as int);
        assert(rest.drop_first() =~= v@.subrange(i as int + 1, v@.len() as int));
        if v[i].id == id {
            return Some((v[i].intent.venue, v[i].intent.symbol.as_str().to_owned()));
        }
        i = i + 1;
    }
    None
}

/// Simulated venue in backtest mode.
pub struct BacktestExchange {
    latency: LatencyTable,
    fees: FeeSchedule,
    rng: SplitMix64,
    books: Vec<BookSlot>,
    pending: Vec<PendingOrder>,
    pending_cancels: Vec<PendingCancel>,
    active: Vec<SimOrder>,
    next_id: u64,
    last_seq: Option<u64>,
    last_ts_mono_ns: u64,
}

impl BacktestExchange {
    pub closed spec fn model(&self) -> ExchangeModel {
        ExchangeModel {
            books: books_view(self.books@),
            pending: self.pending@,
            cancels: self.pending_cancels@,
            active: self.active@,
            rng: self.rng@,
            next_id: self.next_id,
            last_seq: self.last_seq,
            last_ts_mono_ns: self.last_ts_mono_ns,
        }
    }

    /// The resting orders of a well-formed exchange strictly ascend by id, the order in
    /// which a trade passes over them; no id is open twice, and all are below the next id.
    pub proof fn law_active_orders_ascend_by_id(&self)
        requires
            self.wf(),
        ensures
            ids_ascending(self.model().active),
            ids_consistent(self.model().pending, self.model().active, self.model().next_id),
    {
    }

    pub closed spec fn latency_table(&self) -> LatencyTable {
        self.latency
    }

    pub closed spec fn fee_schedule(&self) -> FeeSchedule {
        self.fees
    }

    /// Books are well formed, one per instrument; the latency table can be drawn from;
    /// every open order has its own id (see `ids_consistent`).
    pub closed spec fn wf(&self) -> bool {
        &&& self.latency.drawable()
        &&& forall|i: int| 0 <= i < self.books@.len() ==> (#[trigger] self.books@[i]).book.wf()
        &&& forall|i: int, j: int| 0 <= i < j < self.books@.len() ==> !((#[trigger] self.books@[i]).venue
            == (#[trigger] self.books@[j]).venue && self.books@[i].symbol@ == self.books@[j].symbol@)
        &&& ids_consistent(self.pending@, self.active@, self.next_id)
    }

    /// A fresh exchange. The seed is mandatory: a backtest without one cannot be expressed.
    pub fn new(latency: LatencyTable, fees: FeeSchedule, seed: u64) -> (r: Self)
        requires
            latency.drawable(),
        ensures
            r.wf(),
            r.latency_table() == latency,
            r.fee_schedule() == fees,
            r.model().books.len() == 0,
            r.model().pending.len() == 0,
            r.model().cancels.len() == 0,
            r.model().active.len() == 0,
            r.model().rng == seed,
            r.model().next_id == 1,
            r.model().last_seq is None,
            r.model().last_ts_mono_ns == 0,
            r.model() == fresh_model(seed),
    {
        let r = BacktestExchange {
            latency,
            fees,
            rng: SplitMix64::new(seed),
            books: Vec::new(),
            pending: Vec::new(),
            pending_cancels: Vec::new(),
            active: Vec::new(),
            next_id: 1,
            last_seq: None,
            last_ts_mono_ns: 0,
        };
        assert(books_view(r.books@) =~= Seq::<BookView>::empty());
        r
    }

    /// Open orders: pending plus active.
    pub fn open_orders(&self) -> (r: usize)
        requires
            self.model().pending.len() + self.model().active.len() <= usize::MAX,
        ensures
            r == self.model().pending.len() + self.model().active.len(),
    {
        self.pending.len() + self.active.len()
    }


    /// Cancel an order. Its effect comes after the drawn cancel latency; until then the
    /// order may still fill. An id that is no longer open (filled, or already cancelled) is
    /// a no-op; before the first event it is `NoMarketData`.
    pub fn cancel(&mut self, order_id: u64) -> (r: Result<(), SimError>)
        requires
            old(self).wf(),
            ({
                let m = old(self).model();
                match open_order_key(m, order_id) {
                    Some(k) => m.last_seq is Some && old(self).latency_table().samples().contains_key(k)
                        ==> m.last_ts_mono_ns + drawn(old(self).latency_table(), k.0, k.1, m.rng).1 <= u64::MAX,
                    None => true,
                }
            }),
        ensures
            final(self).wf(),
            final(self).latency_table() == old(self).latency_table(),
            final(self).fee_schedule() == old(self).fee_schedule(),
            final(self).model() == cancelled(old(self).model(), old(self).latency_table(), order_id),
            ({
                let m = old(self).model();
                let lat = old(self).latency_table();
                match open_order_key(m, order_id) {
                    None => r is Ok && final(self).model() == m,
                    Some(k) => if m.last_seq is None {
                        r == Err::<(), SimError>(SimError::NoMarketData) && final(self).model() == m
                    } else if !lat.samples().contains_key(k) {
                        (r matches Err(SimError::MissingLatency { venue: v, symbol: s }) && v == k.0 && s@ == k.1)
                            && final(self).model() == m
                    } else {
                        &&& r is Ok
                        &&& final(self).model() == ExchangeModel {
                            cancels: m.cancels.push(PendingCancel {
                                order_id,
                                effective_ts_mono_ns: (m.last_ts_mono_ns + drawn(lat, k.0, k.1, m.rng).1) as u64,
                            }),
                            rng: rng_after_draw(m.rng),
                            ..m
                        }
                    },
                }
            }),
    {
        let key = match pending_instrument(&self.pending, order_id) {
            Some(k) => k,
            None => match active_instrument(&self.active, order_id) {
                Some(k) => k,
                None => return Ok(()),
            },
        };
        if self.last_seq.is_none() {
            return Err(SimError::NoMarketData);
        }
        let draw = match self.latency.draw(key.0, key.1.as_str(), &mut self.rng) {
            Ok(d) => d,
            Err(e) => return Err(e),
        };
        self.pending_cancels.push(PendingCancel {
            order_id,
            effective_ts_mono_ns: self.last_ts_mono_ns + draw.delta_cancel_ns,
        });
        Ok(())
    }

    /// Fills of a maturing taker order, appended to `fills`.
    fn taker_fill_into(&self, p: &PendingOrder, seq: u64, ts: u64, fills: &mut Vec<SimFill>)
        requires
            self.wf(),
        ensures
            final(fills)@ == old(fills)@ + taker_sim_fills(*p, books_view(self.books@), self.fees, seq, ts),
    {
        let ghost bv = books_view(self.books@);
        match find_book(&self.books, p.intent.venue, p.intent.symbol.as_str()) {
            None => {
                assert(old(fills)@ + Seq::<SimFill>::empty() =~= old(fills)@);
            },
            Some(b) => {
                let book = &self.books[b].book;
                assert(bv[b as int].2 == book.side(Side::Buy) && bv[b as int].3 == book.side(Side::Sell));
                let levels = taker_fills(book, p.intent.side, p.intent.qty, p.intent.price);
                let ghost f0 = fills@;
                let ghost fees = self.fees;
                proof {
                    assert(view_side(bv[b as int], opposite(p.intent.side)) == book.side(opposite(p.intent.side))) by {
                        match p.intent.side { Side::Buy => {}, Side::Sell => {} }
                    }
                }
                let mut j: usize = 0;
                while j < levels.len()
                    invariant
                        j <= levels@.len(),
                        fees == self.fees,
                        fills@ == f0 + levels@.subrange(0, j as int).map_values(|l: (i64, i64)| taker_fill(*p, fees, l, seq, ts)),
                    decreases levels@.len() - j,
                {
                    let (price, qty) = levels[j];
                    let notional = notional_of(price, qty);
                    let fee = fee_or_zero(&self.fees, p.intent.venue, p.intent.symbol.as_str(), false, notional);
                    let fill = SimFill {
                        order_id: p.id,
                        price,
                        qty,
                        maker: false,
                        fee_e8: fee,
                        seq,
                        ts_mono_ns: ts,
                    };
                    assert(fill == taker_fill(*p, fees, levels@[j as int], seq, ts));
                    fills.push(fill);
                    assert(levels@.subrange(0, j as int + 1).map_values(|l: (i64, i64)| taker_fill(*p, fees, l, seq, ts))
                        =~= levels@.subrange(0, j as int).map_values(|l: (i64, i64)| taker_fill(*p, fees, l, seq, ts)).push(fill));
                    j = j + 1;
                }
                assert(levels@.subrange(0, levels@.len() as int) =~= levels@);
            },
        }
    }

    /// Activate the matured pending orders (see `activation`).
    fn activate_matured(&mut self, seq: u64, ts: u64) -> (fills: Vec<SimFill>)
        requires
            old(self).wf(),
        ensures
            final(self).wf(),
            final(self).latency == old(self).latency,
            final(self).fees == old(self).fees,
            final(self).rng == old(self).rng,
            final(self).books == old(self).books,
            final(self).pending_cancels == old(self).pending_cancels,
            final(self).next_id == old(self).next_id,
            final(self).last_seq == old(self).last_seq,
            final(self).last_ts_mono_ns == old(self).last_ts_mono_ns,
            ({
                let a = activation(old(self).pending@, books_view(old(self).books@), old(self).fees, seq, ts);
                &&& final(self).pending@ == a.0
                &&& final(self).active@ == insert_all(old(self).active@, a.1)
                &&& fills@ == a.2
            }),
    {
        let ghost bv = books_view(self.books@);
        let ghost fees = self.fees;
        let ghost a0 = self.active@;
        let mut src: Vec<PendingOrder> = Vec::new();
        core::mem::swap(&mut src, &mut self.pending);
        let ghost orig = src@;
        let mut fills: Vec<SimFill> = Vec::new();
        proof {
            let a = activation(orig, bv, fees, seq, ts);
            assert(self.pending@ + a.0 =~= a.0);
            assert(fills@ + a.2 =~= a.2);
        }
        while src.len() > 0
            invariant
                self.wf(),
                bv == books_view(self.books@),
                fees == self.fees,
                self.books == old(self).books,
                self.latency == old(self).latency,
                self.fees == old(self).fees,
                self.rng == old(self).rng,
                self.pending_cancels == old(self).pending_cancels,
                self.next_id == old(self).next_id,
                self.last_seq == old(self).last_seq,
                self.last_ts_mono_ns == old(self).last_ts_mono_ns,
                pending_ids_ascending(src@),
                forall|a: int, b: int| 0 <= a < self.pending@.len() && 0 <= b < src@.len() ==> (#[trigger] self.pending@[a]).id
                    < (#[trigger] src@[b]).id,
                forall|b: int| 0 <= b < src@.len() ==> (#[trigger] src@[b]).id < self.next_id,
                forall|b: int, j: int| 0 <= b < src@.len() && 0 <= j < self.active@.len() ==> (#[trigger] src@[b]).id
                    != (#[trigger] self.active@[j]).id,
                activation(orig, bv, fees, seq, ts).0 == self.pending@ + activation(src@, bv, fees, seq, ts).0,
                insert_all(a0, activation(orig, bv, fees, seq, ts).1) == insert_all(self.active@, activation(src@, bv, fees, seq, ts).1),
                activation(orig, bv, fees, seq, ts).2 == fills@ + activation(src@, bv, fees, seq, ts).2,
            decreases src@.len(),
        {
            let ghost s = src@;
            let p = src.remove(0);
            assert(s.drop_first() =~= src@);
            assert(p == s[0]);
            assert forall|a: int, b: int| 0 <= a < b < src@.len() implies (#[trigger] src@[a]).id < (#[trigger] src@[b]).id by {
                assert(src@[a] == s[a + 1] && src@[b] == s[b + 1]);
            }
            assert forall|b: int| 0 <= b < src@.len() implies (#[trigger] src@[b]).id > p.id && src@[b].id < self.next_id by {
                assert(src@[b] == s[b + 1]);
            }
            assert forall|b: int, j: int| 0 <= b < src@.len() && 0 <= j < self.active@.len() implies (#[trigger] src@[b]).id
                != (#[trigger] self.active@[j]).id by {
                assert(src@[b] == s[b + 1]);
            }
            assert forall|a: int, b: int| 0 <= a < self.pending@.len() && 0 <= b < src@.len() implies (#[trigger] self.pending@[a]).id
                < (#[trigger] src@[b]).id by {
                assert(src@[b] == s[b + 1]);
            }
            assert forall|a: int| 0 <= a < self.pending@.len() implies (#[trigger] self.pending@[a]).id < p.id by {}
            assert forall|j: int| 0 <= j < self.active@.len() implies (#[trigger] self.active@[j]).id != p.id by {}
            let ghost r = activation(src@, bv, fees, seq, ts);
            if p.effective_ts_mono_ns > ts {
                assert(self.pending@.push(p) + r.0 =~= self.pending@ + (seq![p] + r.0));
                self.pending.push(p);
            } else {
                match p.intent.kind {
                    OrderKind::Maker => {
                        let ahead = self.ahead_for(&p.intent);
                        let o = SimOrder {
                            id: p.id,
                            intent: p.intent,
                            submitted_seq: p.submitted_seq,
                            effective_ts_mono_ns: p.effective_ts_mono_ns,
                            queue: QueueState { ahead, cum_traded: 0, filled: 0 },
                        };
                        assert(o == activated_maker(s[0], bv));
                        assert((seq![o] + r.1).drop_first() =~= r.1);
                        let ghost a1 = self.active@;
                        insert_active(&mut self.active, o);
                        proof {
                            lemma_activation_keeps_ids(self.pending@, a1, o, src@, self.next_id);
                        }
                    },
                    OrderKind::Taker => {
                        let ghost fb = fills@;
                        self.taker_fill_into(&p, seq, ts, &mut fills);
                        assert(fills@ + r.2 =~= fb + (taker_sim_fills(p, bv, fees, seq, ts) + r.2));
                    },
                }
            }
        }
        proof {
            let r = activation(src@, bv, fees, seq, ts);
            assert(self.pending@ + r.0 =~= self.pending@);
            assert(fills@ + r.2 =~= fills@);
        }
        fills
    }

    /// Visible size at the intent's own price level on its side.
    fn ahead_for(&self, intent: &OrderIntent) -> (r: i64)
        requires
            self.wf(),
        ensures
            r == maker_ahead(books_view(self.books@), *intent),
    {
        let ghost bv = books_view(self.books@);
        match find_book(&self.books, intent.venue, intent.symbol.as_str()) {
            None => 0,
            Some(b) => {
                let book = &self.books[b].book;
                proof {
                    assert(view_side(bv[b as int], intent.side) == book.side(intent.side)) by {
                        match intent.side { Side::Buy => {}, Side::Sell => {} }
                    }
                }
                book.size_at(intent.side, intent.price)
            },
        }
    }

    /// Apply the matured cancellations (see `cancellation`).
    fn apply_matured_cancels(&mut self, ts: u64)
        requires
            old(self).wf(),
        ensures
            final(self).wf(),
            final(self).latency == old(self).latency,
            final(self).fees == old(self).fees,
            final(self).rng == old(self).rng,
            final(self).books == old(self).books,
            final(self).next_id == old(self).next_id,
            final(self).last_seq == old(self).last_seq,
            final(self).last_ts_mono_ns == old(self).last_ts_mono_ns,
            (final(self).pending_cancels@, final(self).pending@, final(self).active@) == cancellation(
                old(self).pending_cancels@,
                old(self).pending@,
                old(self).active@,
                ts,
            ),
    {
        let mut src: Vec<PendingCancel> = Vec::new();
        core::mem::swap(&mut src, &mut self.pending_cancels);
        let ghost orig = src@;
        let ghost want = cancellation(orig, self.pending@, self.active@, ts);
        proof {
            assert(self.pending_cancels@ + want.0 =~= want.0);
        }
        while src.len() > 0
            invariant
                self.wf(),
                self.books == old(self).books,
                self.latency == old(self).latency,
                self.fees == old(self).fees,
                self.rng == old(self).rng,
                self.next_id == old(self).next_id,
                self.last_seq == old(self).last_seq,
                self.last_ts_mono_ns == old(self).last_ts_mono_ns,
                want.0 == self.pending_cancels@ + cancellation(src@, self.pending@, self.active@, ts).0,
                want.1 == cancellation(src@, self.pending@, self.active@, ts).1,
                want.2 == cancellation(src@, self.pending@, self.active@, ts).2,
            decreases src@.len(),
        {
            let ghost s = src@;
            let c = src.remove(0);
            assert(s.drop_first() =~= src@);
            if c.effective_ts_mono_ns <= ts {
                let ghost p0 = self.pending@;
                let ghost a0 = self.active@;
                remove_pending_id(&mut self.pending, c.order_id);
                remove_active_id(&mut self.active, c.order_id);
                proof {
                    lemma_remove_pending_keeps(p0, c.order_id);
                    lemma_remove_active_keeps(a0, c.order_id);
                    let p1 = self.pending@;
                    let a1 = self.active@;
                    assert forall|i: int| 0 <= i < p1.len() implies (#[trigger] p1[i]).id < self.next_id by {
                        let k = choose|k: int| 0 <= k < p0.len() && p1[i] == p0[k];
                        assert(p0[k].id < self.next_id);
                    }
                    assert forall|j: int| 0 <= j < a1.len() implies (#[trigger] a1[j]).id < self.next_id by {
                        let k = choose|k: int| 0 <= k < a0.len() && a1[j] == a0[k];
                        assert(a0[k].id < self.next_id);
                    }
                    assert forall|i: int, j: int| 0 <= i < p1.len() && 0 <= j < a1.len() implies (#[trigger] p1[i]).id != (#[trigger] a1[j]).id by {
                        let k = choose|k: int| 0 <= k < p0.len() && p1[i] == p0[k];
                        let l = choose|l: int| 0 <= l < a0.len() && a1[j] == a0[l];
                        assert(p0[k].id != a0[l].id);
                    }
                }
            } else {
                let ghost r = cancellation(src@, self.pending@, self.active@, ts);
                assert(self.pending_cancels@.push(c) + r.0 =~= self.pending_cancels@ + (seq![c] + r.0));
                self.pending_cancels.push(c);
            }
        }
        proof {
            let r = cancellation(src@, self.pending@, self.active@, ts);
            assert(self.pending_cancels@ + r.0 =~= self.pending_cancels@);
        }
    }


    /// Replace (or add) the instrument's book by a snapshot.
    fn apply_snapshot(&mut self, venue: Venue, symbol: &String, bids: &Vec<crate::market::Level>, asks: &Vec<crate::market::Level>)
        requires
            old(self).wf(),
        ensures
            final(self).wf(),
            final(self).latency == old(self).latency,
            final(self).fees == old(self).fees,
            final(self).rng == old(self).rng,
            final(self).pending == old(self).pending,
            final(self).pending_cancels == old(self).pending_cancels,
            final(self).active == old(self).active,
            final(self).next_id == old(self).next_id,
            final(self).last_seq == old(self).last_seq,
            final(self).last_ts_mono_ns == old(self).last_ts_mono_ns,
            books_view(final(self).books@) == books_after_snapshot(books_view(old(self).books@), venue, symbol@, bids@, asks@),
    {
        let ghost bv = books_view(self.books@);
        let ghost b = (venue, symbol@, snapshot_side(bids@, Side::Buy), snapshot_side(asks@, Side::Sell));
        match find_book(&self.books, venue, symbol.as_str()) {
            Some(i) => {
                let mut slot = self.books.remove(i);
                slot.book.apply_snapshot(bids.as_slice(), asks.as_slice());
                self.books.insert(i, slot);
                proof {
                    let nb = self.books@;
                    let ob = old(self).books@;
                    assert forall|a: int, c: int| 0 <= a < c < nb.len() implies !((#[trigger] nb[a]).venue == (#[trigger] nb[c]).venue
                        && nb[a].symbol@ == nb[c].symbol@) by {
                        if a != i as int { assert(nb[a] == ob[a]); }
                        if c != i as int { assert(nb[c] == ob[c]); }
                    }
                    assert forall|a: int| 0 <= a < nb.len() implies (#[trigger] nb[a]).book.wf() by {
                        if a != i as int { assert(nb[a] == ob[a]); }
                    }
                    assert(books_view(nb) =~= bv.update(i as int, b));
                }
            },
            None => {
                let mut book = OrderBook::new();
                book.apply_snapshot(bids.as_slice(), asks.as_slice());
                self.books.push(BookSlot { venue, symbol: symbol.as_str().to_owned(), book });
                proof {
                    let nb = self.books@;
                    let ob = old(self).books@;
                    let n = ob.len() as int;
                    assert forall|a: int, c: int| 0 <= a < c < nb.len() implies !((#[trigger] nb[a]).venue == (#[trigger] nb[c]).venue
                        && nb[a].symbol@ == nb[c].symbol@) by {
                        if c == n {
                            assert(nb[a] == ob[a]);
                            if ob[a].venue == venue && ob[a].symbol@ == symbol@ {
                                assert(bv[a].0 == venue && bv[a].1 == symbol@);
                            }
                        } else {
                            assert(nb[a] == ob[a]);
                            assert(nb[c] == ob[c]);
                        }
                    }
                    assert forall|a: int| 0 <= a < nb.len() implies (#[trigger] nb[a]).book.wf() by {
                        if a != n { assert(nb[a] == ob[a]); }
                    }
                    assert(books_view(nb) =~= bv.push(b));
                }
            },
        }
    }

    /// Pass a trade over the active makers (see `trade_pass`), appending the fills.
    fn trade(&mut self, tick: &TradedTick, venue: Venue, symbol: &String, ts: u64, fills: &mut Vec<SimFill>)
        requires
            old(self).wf(),
            trade_in_range(old(self).active@, *tick, venue, symbol@),
        ensures
            final(self).wf(),
            final(self).latency == old(self).latency,
            final(self).fees == old(self).fees,
            final(self).rng == old(self).rng,
            final(self).books == old(self).books,
            final(self).pending == old(self).pending,
            final(self).pending_cancels == old(self).pending_cancels,
            final(self).next_id == old(self).next_id,
            final(self).last_seq == old(self).last_seq,
            final(self).last_ts_mono_ns == old(self).last_ts_mono_ns,
            final(self).active@ == trade_pass(old(self).active@, *tick, venue, symbol@, old(self).fees, ts).0,
            final(fills)@ == old(fills)@ + trade_pass(old(self).active@, *tick, venue, symbol@, old(self).fees, ts).1,
    {
        let ghost fees = self.fees;
        let mut src: Vec<SimOrder> = Vec::new();
        core::mem::swap(&mut src, &mut self.active);
        let ghost orig = src@;
        let ghost f0 = fills@;
        let ghost want = trade_pass(orig, *tick, venue, symbol@, fees, ts);
        proof {
            assert(self.active@ + want.0 =~= want.0);
        }
        while src.len() > 0
            invariant
                self.latency.drawable(),
                forall|i: int| 0 <= i < self.books@.len() ==> (#[trigger] self.books@[i]).book.wf(),
                forall|i: int, j: int| 0 <= i < j < self.books@.len() ==> !((#[trigger] self.books@[i]).venue
                    == (#[trigger] self.books@[j]).venue && self.books@[i].symbol@ == self.books@[j].symbol@),
                fees == self.fees,
                self.books == old(self).books,
                self.latency == old(self).latency,
                self.fees == old(self).fees,
                self.rng == old(self).rng,
                self.pending == old(self).pending,
                self.pending_cancels == old(self).pending_cancels,
                self.next_id == old(self).next_id,
                self.last_seq == old(self).last_seq,
                self.last_ts_mono_ns == old(self).last_ts_mono_ns,
                trade_in_range(src@, *tick, venue, symbol@),
                ids_ascending(self.active@),
                ids_ascending(src@),
                forall|a: int, b: int| 0 <= a < self.active@.len() && 0 <= b < src@.len() ==> (#[trigger] self.active@[a]).id
                    < (#[trigger] src@[b]).id,
                pending_ids_ascending(self.pending@),
                forall|i: int| 0 <= i < self.pending@.len() ==> (#[trigger] self.pending@[i]).id < self.next_id,
                forall|j: int| 0 <= j < self.active@.len() ==> (#[trigger] self.active@[j]).id < self.next_id,
                forall|j: int| 0 <= j < src@.len() ==> (#[trigger] src@[j]).id < self.next_id,
                forall|i: int, j: int| 0 <= i < self.pending@.len() && 0 <= j < self.active@.len() ==> (#[trigger] self.pending@[i]).id
                    != (#[trigger] self.active@[j]).id,
                forall|i: int, j: int| 0 <= i < self.pending@.len() && 0 <= j < src@.len() ==> (#[trigger] self.pending@[i]).id
                    != (#[trigger] src@[j]).id,
                want.0 == self.active@ + trade_pass(src@, *tick, venue, symbol@, fees, ts).0,
                f0 + want.1 == fills@ + trade_pass(src@, *tick, venue, symbol@, fees, ts).1,
            decreases src@.len(),
        {
            let ghost s = src@;
            let mut o = src.remove(0);
            assert(s.drop_first() =~= src@);
            assert(o == s[0]);
            assert forall|a: int, b: int| 0 <= a < b < src@.len() implies (#[trigger] src@[a]).id < (#[trigger] src@[b]).id by {
                assert(src@[a] == s[a + 1]);
                assert(src@[b] == s[b + 1]);
            }
            assert forall|b: int| 0 <= b < src@.len() implies o.id < (#[trigger] src@[b]).id by {
                assert(src@[b] == s[b + 1]);
            }
            assert forall|b: int| 0 <= b < src@.len() implies (#[trigger] src@[b]).id < self.next_id by {
                assert(src@[b] == s[b + 1]);
            }
            assert forall|a: int, b: int| 0 <= a < self.pending@.len() && 0 <= b < src@.len() implies (#[trigger] self.pending@[a]).id
                != (#[trigger] src@[b]).id by {
                assert(src@[b] == s[b + 1]);
            }
            assert(o.id < self.next_id);
            assert forall|a: int| 0 <= a < self.pending@.len() implies (#[trigger] self.pending@[a]).id != o.id by {
                assert(s[0] == o);
            }
            assert forall|i: int| 0 <= i < src@.len() && trades_on(#[trigger] src@[i], venue, symbol@) implies tick_in_range(src@[i], *tick) by {
                assert(src@[i] == s[i + 1]);
            }
            let ghost r = trade_pass(src@, *tick, venue, symbol@, fees, ts);
            let ghost act = self.active@;
            let matches = o.intent.venue == venue && str_eq(o.intent.symbol.as_str(), symbol.as_str())
                && o.intent.kind == OrderKind::Maker;
            if !matches {
                assert(!trades_on(o, venue, symbol@));
                assert(act.push(o) + r.0 =~= act + (seq![o] + r.0));
                assert forall|a: int, b: int| 0 <= a < act.len() + 1 && 0 <= b < src@.len() implies (#[trigger] act.push(o)[a]).id
                    < (#[trigger] src@[b]).id by {
                    if a < act.len() { assert(src@[b] == s[b + 1]); }
                }
                self.active.push(o);
            } else {
                assert(trades_on(o, venue, symbol@));
                let ghost o0 = o;
                let (q, d) = on_traded_tick(&o, tick);
                o.queue = q;
                assert(o == with_queue(o0, tick_queue(o0, *tick)));
                match d {
                    FillDecision::NoFill => {
                        assert(tick_fill_qty(o0, *tick) == 0);
                        assert(act.push(o) + r.0 =~= act + (seq![o] + r.0));
                        assert forall|a: int, b: int| 0 <= a < act.len() + 1 && 0 <= b < src@.len() implies (#[trigger] act.push(o)[a]).id
                            < (#[trigger] src@[b]).id by {
                            if a < act.len() { assert(src@[b] == s[b + 1]); }
                        }
                        self.active.push(o);
                    },
                    FillDecision::Partial { qty } | FillDecision::Full { qty } => {
                        assert(tick_fill_qty(o0, *tick) == qty);
                        let notional = notional_of(o.intent.price, qty);
                        let fee = fee_or_zero(&self.fees, o.intent.venue, o.intent.symbol.as_str(), true, notional);
                        let fill = SimFill {
                            order_id: o.id,
                            price: o.intent.price,
                            qty,
                            maker: true,
                            fee_e8: fee,
                            seq: tick.seq,
                            ts_mono_ns: ts,
                        };
                        let ghost fb = fills@;
                        fills.push(fill);
                        assert(fills@ + r.1 =~= fb + (seq![fill] + r.1));
                        if o.queue.filled >= o.intent.qty {
                            assert forall|a: int, b: int| 0 <= a < act.len() && 0 <= b < src@.len() implies (#[trigger] act[a]).id
                                < (#[trigger] src@[b]).id by {
                                assert(src@[b] == s[b + 1]);
                            }
                        } else {
                            assert(act.push(o) + r.0 =~= act + (seq![o] + r.0));
                            assert forall|a: int, b: int| 0 <= a < act.len() + 1 && 0 <= b < src@.len() implies (#[trigger] act.push(o)[a]).id
                                < (#[trigger] src@[b]).id by {
                                if a < act.len() { assert(src@[b] == s[b + 1]); }
                            }
                            self.active.push(o);
                        }
                    },
                }
            }
        }
        proof {
            let r = trade_pass(src@, *tick, venue, symbol@, fees, ts);
            assert(self.active@ + r.0 =~= self.active@);
            assert(fills@ + r.1 =~= fills@);
        }
    }

    /// Advance the simulator by one journal event and return the fills of this tick (see
    /// `step`). The model sees only events up to the current one: no lookahead.
    pub fn on_event(&mut self, ev: &Event) -> (r: Vec<SimFill>)
        requires
            old(self).wf(),
            event_in_range(old(self).model(), old(self).fee_schedule(), *ev),
        ensures
            final(self).wf(),
            final(self).latency_table() == old(self).latency_table(),
            final(self).fee_schedule() == old(self).fee_schedule(),
            final(self).model() == step(old(self).model(), old(self).fee_schedule(), *ev).0,
            r@ == step(old(self).model(), old(self).fee_schedule(), *ev).1,
            ids_ascending(active_before_effect(old(self).model(), old(self).fee_schedule(), *ev)),
    {
        self.last_seq = Some(ev.seq);
        self.last_ts_mono_ns = ev.ts_mono_ns;
        let mut fills = self.activate_matured(ev.seq, ev.ts_mono_ns);
        self.apply_matured_cancels(ev.ts_mono_ns);
        assert(self.active@ == active_before_effect(old(self).model(), old(self).fee_schedule(), *ev));
        match &ev.kind {
            EventKind::Md(md) => match &md.payload {
                MdPayload::L2Snapshot { bids, asks, .. } => {
                    self.apply_snapshot(md.venue, &md.symbol, bids, asks);
                },
                MdPayload::Trade { price, size, side, .. } => {
                    let tick = TradedTick { price: *price, qty: *size, side: *side, seq: ev.seq };
                    self.trade(&tick, md.venue, &md.symbol, ev.ts_mono_ns, &mut fills);
                },
                MdPayload::L2Delta { .. } => {},
                MdPayload::Funding { .. } => {},
                MdPayload::OpenInterest { .. } => {},
                MdPayload::Liquidation { .. } => {},
                MdPayload::MarginRate { .. } => {},
            },
            EventKind::Sys(_) => {},
        }
        proof {
            let st = step(old(self).model(), old(self).fee_schedule(), *ev);
            assert(self.model() =~= st.0);
            assert(fills@ =~= st.1);
        }
        fills
    }

    /// Submit an intent. The clock and sequence are those of the last event: before the
    /// first event it is `NoMarketData`. An instrument without a latency distribution is
    /// `MissingLatency`, a venue without fees `MissingFees` (fail-closed at submission, not
    /// at fill). Otherwise the order becomes pending with the next id, effective after the
    /// drawn submit latency, and its id is returned.
    pub fn submit(&mut self, intent: OrderIntent) -> (r: Result<u64, SimError>)
        requires
            old(self).wf(),
            old(self).model().last_seq is Some && old(self).latency_table().samples().contains_key(
                (intent.venue, intent.symbol@),
            ) && old(self).fee_schedule().rates(intent.venue) is Some ==> {
                &&& old(self).model().next_id < u64::MAX
                &&& old(self).model().last_ts_mono_ns + drawn(
                    old(self).latency_table(),
                    intent.venue,
                    intent.symbol@,
                    old(self).model().rng,
                ).0 <= u64::MAX
            },
        ensures
            final(self).wf(),
            final(self).latency_table() == old(self).latency_table(),
            final(self).fee_schedule() == old(self).fee_schedule(),
            final(self).model() == submitted(old(self).model(), old(self).latency_table(), old(self).fee_schedule(), intent),
            ({
                let m = old(self).model();
                let lat = old(self).latency_table();
                if m.last_seq is None {
                    r == Err::<u64, SimError>(SimError::NoMarketData) && final(self).model() == m
                } else if !lat.samples().contains_key((intent.venue, intent.symbol@)) {
                    (r matches Err(SimError::MissingLatency { venue: v, symbol: s }) && v == intent.venue
                        && s@ == intent.symbol@) && final(self).model() == m
                } else if old(self).fee_schedule().rates(intent.venue) is None {
                    (r matches Err(SimError::MissingFees { venue: v, symbol: s }) && v == intent.venue
                        && s@ == intent.symbol@) && final(self).model() == m
                } else {
                    &&& r == Ok::<u64, SimError>(m.next_id)
                    &&& final(self).model() == ExchangeModel {
                        pending: m.pending.push(PendingOrder {
                            id: m.next_id,
                            intent,
                            submitted_seq: m.last_seq.unwrap(),
                            effective_ts_mono_ns: (m.last_ts_mono_ns + drawn(lat, intent.venue, intent.symbol@, m.rng).0) as u64,
                        }),
                        rng: rng_after_draw(m.rng),
                        next_id: (m.next_id + 1) as u64,
                        ..m
                    }
                }
            }),
    {
        let last_seq = match self.last_seq {
            Some(s) => s,
            None => return Err(SimError::NoMarketData),
        };
        if !self.latency.has(intent.venue, intent.symbol.as_str()) {
            return Err(SimError::MissingLatency { venue: intent.venue, symbol: intent.symbol.as_str().to_owned() });
        }
        if !self.fees.has(intent.venue) {
            return Err(SimError::MissingFees { venue: intent.venue, symbol: intent.symbol.as_str().to_owned() });
        }
        let draw = match self.latency.draw(intent.venue, intent.symbol.as_str(), &mut self.rng) {
            Ok(d) => d,
            Err(e) => return Err(e),
        };
        let id = self.next_id;
        self.next_id = self.next_id + 1;
        let eff = self.last_ts_mono_ns + draw.delta_submit_ns;
        self.pending.push(PendingOrder { id, intent, submitted_seq: last_seq, effective_ts_mono_ns: eff });
        Ok(id)
    }
}

} // verus!
