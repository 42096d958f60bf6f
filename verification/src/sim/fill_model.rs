//! Fill model: pure functions, pessimistic by construction. A maker order sits at the tail
//! of its level, gets no credit for cancellations ahead of it, and fills only from traded
//! volume that exceeds the depth ahead of it.

use vstd::prelude::*;

use crate::market::Side;
use crate::sim::book::{side_well_formed, OrderBook};
use crate::sim::types::{FillDecision, QueueState, SimOrder, TradedTick};

verus! {

/// The tick counts for the order: it trades at our price and was not yet visible when the
/// order was submitted.
pub open spec fn tick_applies(order: SimOrder, tick: TradedTick) -> bool {
    tick.price == order.intent.price && tick.seq > order.submitted_seq
}

pub open spec fn max_int(a: int, b: int) -> int {
    if a >= b { a } else { b }
}

pub open spec fn min_int(a: int, b: int) -> int {
    if a <= b { a } else { b }
}

/// Volume traded beyond the depth ahead of us (never negative).
pub open spec fn traded_excess(q: QueueState) -> int {
    max_int(q.cum_traded - q.ahead, 0)
}

/// The pessimistic bound on what may have been filled: our quantity, capped by the traded
/// excess over the depth ahead.
pub open spec fn pessimistic_bound(qty: int, q: QueueState) -> int {
    min_int(qty, traded_excess(q))
}

/// The queue after the tick's volume is counted.
pub open spec fn counted_queue(order: SimOrder, tick: TradedTick) -> QueueState {
    QueueState {
        ahead: order.queue.ahead,
        cum_traded: (order.queue.cum_traded + tick.qty) as i64,
        filled: order.queue.filled,
    }
}

/// What the tick fills: nothing once the order is complete; otherwise the part of the
/// excess not yet filled, capped by what remains of the order.
pub open spec fn tick_fill_qty(order: SimOrder, tick: TradedTick) -> int {
    let q = counted_queue(order, tick);
    let remaining = order.intent.qty - q.filled;
    let fillable = traded_excess(q) - q.filled;
    if !tick_applies(order, tick) || remaining <= 0 || fillable <= 0 {
        0
    } else {
        min_int(fillable, remaining)
    }
}

/// The order's numbers stay inside `i64` while the tick is processed.
pub open spec fn tick_in_range(order: SimOrder, tick: TradedTick) -> bool {
    tick_applies(order, tick) ==> {
        let cum = order.queue.cum_traded + tick.qty;
        &&& i64::MIN <= cum <= i64::MAX
        &&& i64::MIN <= order.intent.qty - order.queue.filled <= i64::MAX
        &&& i64::MIN <= cum - order.queue.ahead <= i64::MAX
        &&& i64::MIN <= max_int(cum - order.queue.ahead, 0) - order.queue.filled <= i64::MAX
    }
}

/// Maker decision on one traded tick. A tick at another price, or one already visible at
/// submission, changes nothing and fills nothing. Otherwise the tick's volume is added to
/// `cum_traded`, and the order fills only when `cum_traded` exceeds `ahead`: by the excess
/// not yet filled, capped by what remains of the order. The same inputs give the same
/// decision.
pub fn on_traded_tick(order: &SimOrder, tick: &TradedTick) -> (r: (QueueState, FillDecision))
    requires
        tick_in_range(*order, *tick),
    ensures
        !tick_applies(*order, *tick) ==> r.0 == order.queue && r.1 == FillDecision::NoFill,
        tick_applies(*order, *tick) ==> {
            &&& r.0.ahead == order.queue.ahead
            &&& r.0.cum_traded == order.queue.cum_traded + tick.qty
            &&& r.0.filled == order.queue.filled + tick_fill_qty(*order, *tick)
        },
        tick_fill_qty(*order, *tick) == 0 ==> r.1 == FillDecision::NoFill,
        tick_fill_qty(*order, *tick) > 0 && tick_fill_qty(*order, *tick) == order.intent.qty
            - order.queue.filled ==> r.1 == (FillDecision::Full { qty: tick_fill_qty(*order, *tick) as i64 }),
        tick_fill_qty(*order, *tick) > 0 && tick_fill_qty(*order, *tick) != order.intent.qty
            - order.queue.filled ==> r.1 == (FillDecision::Partial { qty: tick_fill_qty(*order, *tick) as i64 }),
{
    let mut q = order.queue;
    if tick.price != order.intent.price || tick.seq <= order.submitted_seq {
        return (q, FillDecision::NoFill);
    }
    q.cum_traded = q.cum_traded + tick.qty;
    let remaining = order.intent.qty - q.filled;
    if remaining <= 0 {
        return (q, FillDecision::NoFill);
    }
    let over = q.cum_traded - q.ahead;
    let excess = if over > 0 { over } else { 0 };
    let fillable_now = excess - q.filled;
    if fillable_now <= 0 {
        return (q, FillDecision::NoFill);
    }
    let fill_qty = if fillable_now <= remaining { fillable_now } else { remaining };
    q.filled = q.filled + fill_qty;
    if fill_qty == remaining {
        (q, FillDecision::Full { qty: fill_qty })
    } else {
        (q, FillDecision::Partial { qty: fill_qty })
    }
}

/// The pessimistic queue law: when what has been filled equals the pessimistic bound (as
/// it does for a fresh order: nothing traded, nothing filled, non-negative depth ahead),
/// a tick with non-negative volume keeps it so, and the decision fills exactly the growth
/// of the bound. In particular the total fill never exceeds `min(qty, max(0, cum_traded −
/// ahead))`, equality of traded volume and depth ahead fills nothing, and a tick with zero
/// volume never fills.
pub proof fn law_fill_tracks_pessimistic_bound(order: SimOrder, tick: TradedTick)
    requires
        tick_in_range(order, tick),
        tick.qty >= 0,
        order.intent.qty >= 0,
        order.queue.filled == pessimistic_bound(order.intent.qty as int, order.queue),
    ensures
        ({
            let q2 = if tick_applies(order, tick) {
                QueueState {
                    ahead: order.queue.ahead,
                    cum_traded: (order.queue.cum_traded + tick.qty) as i64,
                    filled: (order.queue.filled + tick_fill_qty(order, tick)) as i64,
                }
            } else {
                order.queue
            };
            &&& q2.filled == pessimistic_bound(order.intent.qty as int, q2)
            &&& tick_fill_qty(order, tick) == pessimistic_bound(order.intent.qty as int, q2)
                - pessimistic_bound(order.intent.qty as int, order.queue)
        }),
        tick.qty == 0 ==> tick_fill_qty(order, tick) == 0,
{
}

/// A cancellation ahead of us frees no place in the queue: the queue is returned unchanged.
pub fn on_cancel_ahead(q: QueueState, cancelled_qty: i64) -> (r: QueueState)
    ensures
        r == q,
{
    q
}

/// The book side a taker order eats: asks for a buy, bids for a sell.
pub open spec fn opposite(side: Side) -> Side {
    match side {
        Side::Buy => Side::Sell,
        Side::Sell => Side::Buy,
    }
}

/// A level's price is acceptable under the limit: at most the limit for a buy, at least
/// the limit for a sell.
pub open spec fn within_limit(price: i64, side: Side, limit_price: i64) -> bool {
    match side {
        Side::Buy => price <= limit_price,
        Side::Sell => price >= limit_price,
    }
}

/// Greedy walk from the best level: take from each acceptable level as much as remains,
/// stop at the first level beyond the limit or when nothing remains.
pub open spec fn taker_walk(levels: Seq<(i64, i64)>, side: Side, remaining: int, limit_price: i64) -> Seq<(i64, i64)>
    decreases levels.len(),
{
    if levels.len() == 0 || remaining <= 0 || !within_limit(levels[0].0, side, limit_price) {
        Seq::empty()
    } else {
        let take = min_int(remaining, levels[0].1 as int);
        if take > 0 {
            seq![(levels[0].0, take as i64)] + taker_walk(levels.drop_first(), side, remaining - take, limit_price)
        } else {
            taker_walk(levels.drop_first(), side, remaining, limit_price)
        }
    }
}

/// Taker execution against the visible book only: walk the opposite side from the top of
/// book up to the limit price, returning `(price, qty)` per level. When the depth within
/// the limit falls short, the fill is partial; the rest is not invented.
pub fn taker_fills(visible_book: &OrderBook, side: Side, qty: i64, limit_price: i64) -> (r: Vec<(i64, i64)>)
    requires
        visible_book.wf(),
    ensures
        r@ == taker_walk(visible_book.side(opposite(side)), side, qty as int, limit_price),
{
    let opp = match side {
        Side::Buy => Side::Sell,
        Side::Sell => Side::Buy,
    };
    let levels = visible_book.levels(opp);
    let ghost all = levels@;
    let mut fills: Vec<(i64, i64)> = Vec::new();
    let mut remaining = qty;
    let mut i: usize = 0;
    proof {
        assert(all.subrange(0, all.len() as int) =~= all);
        let w = taker_walk(all, side, qty as int, limit_price);
        assert(fills@ + w =~= w);
    }
    while i < levels.len()
        invariant_except_break
            i <= all.len(),
            levels@ == all,
            remaining <= qty,
            fills@ + taker_walk(all.subrange(i as int, all.len() as int), side, remaining as int, limit_price)
                == taker_walk(all, side, qty as int, limit_price),
        ensures
            fills@ == taker_walk(all, side, qty as int, limit_price),
        decreases all.len() - i,
    {
        let ghost rest = all.subrange(i as int, all.len() as int);
        assert(rest.drop_first() =~= all.subrange(i as int + 1, all.len() as int));
        let (price, size) = levels[i];
        if remaining <= 0 {
            assert(fills@ + Seq::<(i64, i64)>::empty() =~= fills@);
            break;
        }
        let within = match side {
            Side::Buy => price <= limit_price,
            Side::Sell => price >= limit_price,
        };
        if !within {
            assert(fills@ + Seq::<(i64, i64)>::empty() =~= fills@);
            break;
        }
        let take = if remaining <= size { remaining } else { size };
        if take > 0 {
            proof {
                let w = taker_walk(all.subrange(i as int + 1, all.len() as int), side, remaining - take, limit_price);
                assert(fills@.push((price, take)) + w =~= fills@ + (seq![(price, take)] + w));
            }
            fills.push((price, take));
            remaining = remaining - take;
        }
        i = i + 1;
    }
    proof {
        if i == all.len() {
            assert(all.subrange(i as int, all.len() as int).len() == 0);
            assert(fills@ + Seq::<(i64, i64)>::empty() =~= fills@);
        }
    }
    fills
}

/// Total quantity of a list of fills.
pub open spec fn fills_qty(f: Seq<(i64, i64)>) -> int
    decreases f.len(),
{
    if f.len() == 0 {
        0
    } else {
        f[0].1 + fills_qty(f.drop_first())
    }
}

/// Taker fills eat the visible book only: the `i`-th fill is at the `i`-th best level, no
/// bigger than that level and within the limit, prices worsen from fill to fill, and the
/// total never exceeds the order's quantity.
pub proof fn law_taker_fills_visible_only(levels: Seq<(i64, i64)>, side: Side, qty: int, limit_price: i64)
    requires
        side_well_formed(levels, opposite(side)),
    ensures
        ({
            let w = taker_walk(levels, side, qty, limit_price);
            &&& w.len() <= levels.len()
            &&& forall|i: int| 0 <= i < w.len() ==> {
                &&& (#[trigger] w[i]).0 == levels[i].0
                &&& 0 < w[i].1 <= levels[i].1
                &&& within_limit(w[i].0, side, limit_price)
            }
            &&& fills_qty(w) <= if qty > 0 { qty } else { 0 }
        }),
    decreases levels.len(),
{
    if levels.len() == 0 || qty <= 0 || !within_limit(levels[0].0, side, limit_price) {
    } else {
        let take = min_int(qty, levels[0].1 as int);
        let tail = levels.drop_first();
        assert(side_well_formed(tail, opposite(side))) by {
            assert forall|a: int, b: int| 0 <= a < b < tail.len() implies crate::sim::book::better(#[trigger] tail[a].0, #[trigger] tail[b].0, opposite(side)) by {
                assert(tail[a] == levels[a + 1]);
                assert(tail[b] == levels[b + 1]);
            }
            assert forall|a: int| 0 <= a < tail.len() implies (#[trigger] tail[a]).1 > 0 by {
                assert(tail[a] == levels[a + 1]);
            }
        }
        assert(levels[0].1 > 0);
        law_taker_fills_visible_only(tail, side, qty - take, limit_price);
        let w = taker_walk(levels, side, qty, limit_price);
        let wt = taker_walk(tail, side, qty - take, limit_price);
        assert(w == seq![(levels[0].0, take as i64)] + wt);
        assert(w.drop_first() =~= wt);
        assert forall|i: int| 0 <= i < w.len() implies {
            &&& (#[trigger] w[i]).0 == levels[i].0
            &&& 0 < w[i].1 <= levels[i].1
            &&& within_limit(w[i].0, side, limit_price)
        } by {
            if i > 0 {
                assert(w[i] == wt[i - 1]);
                assert(levels[i] == tail[i - 1]);
            }
        }
    }
}

} // verus!
