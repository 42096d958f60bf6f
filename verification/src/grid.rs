//! Grid bookkeeping around the strategy run: the research code hash that keys the trials
//! ledger, the access rule of the test split, the first observed mid of a cell's
//! instrument, and the money accounting of a cell (cash and turnover from the fills, and
//! the mark-to-market equity curve).

use vstd::prelude::*;

use crate::bucket::trunc_div;
use crate::ledger::{hex_text, sha256_hex, sha256_of};
use crate::market::{Event, EventKind, MdPayload, Side, Venue, PRICE_SCALE};
use crate::split::ValGateToken;
use crate::types::{RcError, SplitKind};
use crate::signals::str_eq;
use crate::sim::book::{snapshot_side, view_mid, OrderBook};

verus! {

/// Ledger epoch marker: records written before it carry the bare hash of the signal source
/// and are not comparable with the current pipeline.
pub const LEDGER_EPOCH_CUTOFF: &'static str = "5141fd9";

/// Domain prefix of the research code hash.
pub const CODE_HASH_DOMAIN: &'static str = "research-cli-strategy-grid:";

/// Bytes hashed into the research code hash: the domain prefix, the epoch marker, a zero
/// byte, then the signal's source.
pub open spec fn code_hash_input(source: Seq<u8>) -> Seq<u8> {
    vstd::utf8::encode_utf8(CODE_HASH_DOMAIN@) + vstd::utf8::encode_utf8(LEDGER_EPOCH_CUTOFF@) + seq![0u8] + source
}

fn append_bytes(buf: &mut Vec<u8>, more: &[u8])
    ensures
        final(buf)@ == old(buf)@ + more@,
{
    let mut i: usize = 0;
    while i < more.len()
        invariant
            i <= more@.len(),
            buf@ == old(buf)@ + more@.subrange(0, i as int),
        decreases more@.len() - i,
    {
        buf.push(more[i]);
        assert(more@.subrange(0, i as int + 1) =~= more@.subrange(0, i as int).push(more@[i as int]));
        i = i + 1;
    }
    assert(more@.subrange(0, more@.len() as int) =~= more@);
}

/// Research code hash of the signal source `obi_source` in the current ledger epoch: the
/// lower-case hex SHA-256 of `code_hash_input`. Identical sources in one epoch give
/// identical hashes; the epoch marker keeps them apart from pre-epoch records.
pub fn research_code_hash(obi_source: &[u8]) -> (r: String)
    ensures
        r@ == hex_text(sha256_of(code_hash_input(obi_source@))),
{
    let mut buf: Vec<u8> = Vec::new();
    append_bytes(&mut buf, CODE_HASH_DOMAIN.as_bytes());
    append_bytes(&mut buf, LEDGER_EPOCH_CUTOFF.as_bytes());
    buf.push(0u8);
    append_bytes(&mut buf, obi_source);
    assert(buf@ =~= code_hash_input(obi_source@));
    sha256_hex(buf.as_slice())
}

/// The mid a snapshot event of the instrument leaves its book with (`None` for any other
/// event, or when a side of the snapshot is empty).
pub open spec fn snapshot_mid(e: Event, venue: Venue, symbol: Seq<char>) -> Option<int> {
    match e.kind {
        EventKind::Md(md) => if md.venue == venue && md.symbol@ == symbol {
            match md.payload {
                MdPayload::L2Snapshot { bids, asks, .. } => view_mid(
                    snapshot_side(bids@, Side::Buy),
                    snapshot_side(asks@, Side::Sell),
                ),
                _ => None,
            }
        } else {
            None
        },
        _ => None,
    }
}

/// First mid of the instrument along the events; 0 when its book is never two-sided.
pub open spec fn first_mid(events: Seq<Event>, venue: Venue, symbol: Seq<char>) -> int
    decreases events.len(),
{
    if events.len() == 0 {
        0
    } else {
        match snapshot_mid(events[0], venue, symbol) {
            Some(m) => m,
            None => first_mid(events.subrange(1, events.len() as int), venue, symbol),
        }
    }
}

/// The first observed mid ×1e8 of the instrument `(venue, symbol)`: its book is rebuilt
/// forward from the instrument's snapshots, and the first two-sided book gives the mid;
/// 0 when there is none (fail closed).
pub fn first_mid_e8(events: &Vec<Event>, venue: Venue, symbol: &str) -> (r: i64)
    ensures
        r as int == first_mid(events@, venue, symbol@),
{
    let mut i: usize = 0;
    assert(events@.subrange(0, events@.len() as int) =~= events@);
    while i < events.len()
        invariant
            i <= events@.len(),
            first_mid(events@, venue, symbol@) == first_mid(
                events@.subrange(i as int, events@.len() as int),
                venue,
                symbol@,
            ),
        decreases events@.len() - i,
    {
        let ghost rest = events@.subrange(i as int, events@.len() as int);
        proof {
            assert(rest[0] == events@[i as int]);
            assert(rest.subrange(1, rest.len() as int) =~= events@.subrange(i as int + 1, events@.len() as int));
        }
        match &events[i].kind {
            EventKind::Md(md) => {
                if md.venue == venue && str_eq(md.symbol.as_str(), symbol) {
                    match &md.payload {
                        MdPayload::L2Snapshot { bids, asks, .. } => {
                            let mut book = OrderBook::new();
                            book.apply_snapshot(bids.as_slice(), asks.as_slice());
                            let m = book.mid();
                            if let Some(v) = m {
                                return v;
                            }
                        },
                        _ => {},
                    }
                }
            },
            _ => {},
        }
        i = i + 1;
    }
    0
}

/// A grid may run on the test split only with the proof that the validation gate passed;
/// train and validation runs need none.
pub fn check_split_access(split: SplitKind, test_proof: Option<&ValGateToken>) -> (r: Result<(), RcError>)
    ensures
        r is Err <==> (split == SplitKind::Test && test_proof is None),
        r matches Err(e) ==> e is GateDenied,
{
    match (split, test_proof) {
        (SplitKind::Test, None) => Err(RcError::GateDenied(
            "a test-split run needs the validation gate's token".to_owned(),
        )),
        _ => Ok(()),
    }
}

/// Notional ×1e8 of a fill: `price · qty / 1e8` with Rust division.
pub open spec fn fill_notional(price: i64, qty: i64) -> int {
    trunc_div(price * qty, PRICE_SCALE as int)
}

/// Cash movement of a fill: a buy pays notional and fee, a sell receives notional less fee.
pub open spec fn fill_cash_delta(side: Side, price: i64, qty: i64, fee_e8: i64) -> int {
    match side {
        Side::Buy => -(fill_notional(price, qty) + fee_e8),
        Side::Sell => fill_notional(price, qty) - fee_e8,
    }
}

pub open spec fn abs_int(x: int) -> int {
    if x < 0 { -x } else { x }
}

pub open spec fn fits_i128(x: int) -> bool {
    i128::MIN <= x <= i128::MAX
}

/// Marked value of the positions: for each `(position ×1e8, mid)` whose book has a mid,
/// `position · mid / 1e8` with Rust division; instruments without a mid are left out.
pub open spec fn marked_value(marks: Seq<(i64, Option<i64>)>) -> int
    decreases marks.len(),
{
    if marks.len() == 0 {
        0
    } else {
        marked_value(marks.drop_last()) + match marks.last().1 {
            Some(mid) => trunc_div(marks.last().0 * mid, PRICE_SCALE as int),
            None => 0,
        }
    }
}

/// `x` saturated into `i64`.
pub open spec fn clamp_i64(x: int) -> i64 {
    if x < i64::MIN { i64::MIN } else if x > i64::MAX { i64::MAX } else { x as i64 }
}

/// Every running total of the equity mark stays inside `i128`.
pub open spec fn equity_fits(cash: int, marks: Seq<(i64, Option<i64>)>) -> bool {
    forall|k: int| 0 <= k <= marks.len() ==> fits_i128(cash + #[trigger] marked_value(marks.subrange(0, k)))
}

/// Money of a grid cell: cash and turnover from its fills, the equity curve (one point per
/// event that brought fills) and the first mid of its instrument.
#[derive(Clone, Debug)]
pub struct CellAccount {
    pub cash_e8: i128,
    pub turnover_e8: i128,
    pub equity_curve_e8: Vec<i64>,
    pub first_mid_e8: i64,
}

fn mul_div_scale(a: i64, b: i64) -> (r: i128)
    ensures
        r == trunc_div(a * b, PRICE_SCALE as int),
        -0x4000_0000_0000_0000_0000_0000_0000_0000 <= r <= 0x4000_0000_0000_0000_0000_0000_0000_0000,
{
    assert(-0x4000_0000_0000_0000_0000_0000_0000_0000 <= a * b <= 0x4000_0000_0000_0000_0000_0000_0000_0000) by (nonlinear_arith)
        requires
            i64::MIN <= a <= i64::MAX,
            i64::MIN <= b <= i64::MAX;
    let p: i128 = a as i128 * b as i128;
    p / (PRICE_SCALE as i128)
}

impl CellAccount {
    /// No fills, no equity points, no mid yet.
    pub fn new() -> (r: Self)
        ensures
            r.cash_e8 == 0,
            r.turnover_e8 == 0,
            r.equity_curve_e8@.len() == 0,
            r.first_mid_e8 == 0,
    {
        CellAccount { cash_e8: 0, turnover_e8: 0, equity_curve_e8: Vec::new(), first_mid_e8: 0 }
    }

    /// Book one fill of our order on `side`.
    pub fn apply_fill(&mut self, side: Side, price: i64, qty: i64, fee_e8: i64)
        requires
            fits_i128(old(self).cash_e8 + fill_cash_delta(side, price, qty, fee_e8)),
            fits_i128(old(self).turnover_e8 + abs_int(fill_notional(price, qty))),
        ensures
            final(self).cash_e8 == old(self).cash_e8 + fill_cash_delta(side, price, qty, fee_e8),
            final(self).turnover_e8 == old(self).turnover_e8 + abs_int(fill_notional(price, qty)),
            final(self).equity_curve_e8@ == old(self).equity_curve_e8@,
            final(self).first_mid_e8 == old(self).first_mid_e8,
    {
        let notional = mul_div_scale(price, qty);
        let delta: i128 = match side {
            Side::Buy => -(notional + fee_e8 as i128),
            Side::Sell => notional - fee_e8 as i128,
        };
        self.cash_e8 = self.cash_e8 + delta;
        let a: i128 = if notional < 0 { -notional } else { notional };
        self.turnover_e8 = self.turnover_e8 + a;
    }

    /// Remember the instrument's mid after an event of the instrument: the first mid seen
    /// is kept (a zero counts as none yet).
    pub fn note_mid(&mut self, mid: Option<i64>)
        ensures
            final(self).first_mid_e8 == (if old(self).first_mid_e8 == 0 && mid is Some {
                mid.unwrap()
            } else {
                old(self).first_mid_e8
            }),
            final(self).cash_e8 == old(self).cash_e8,
            final(self).turnover_e8 == old(self).turnover_e8,
            final(self).equity_curve_e8@ == old(self).equity_curve_e8@,
    {
        if self.first_mid_e8 == 0 {
            if let Some(m) = mid {
                self.first_mid_e8 = m;
            }
        }
    }

    /// Add one equity point: cash plus the marked value of the positions, saturated into
    /// `i64`.
    pub fn mark_equity(&mut self, marks: &Vec<(i64, Option<i64>)>)
        requires
            equity_fits(old(self).cash_e8 as int, marks@),
        ensures
            final(self).equity_curve_e8@ == old(self).equity_curve_e8@.push(
                clamp_i64(old(self).cash_e8 + marked_value(marks@)),
            ),
            final(self).cash_e8 == old(self).cash_e8,
            final(self).turnover_e8 == old(self).turnover_e8,
            final(self).first_mid_e8 == old(self).first_mid_e8,
    {
        let mut eq: i128 = self.cash_e8;
        let mut i: usize = 0;
        while i < marks.len()
            invariant
                i <= marks@.len(),
                equity_fits(self.cash_e8 as int, marks@),
                eq == self.cash_e8 + marked_value(marks@.subrange(0, i as int)),
            decreases marks@.len() - i,
        {
            let ghost pre = marks@.subrange(0, i as int + 1);
            assert(pre.drop_last() =~= marks@.subrange(0, i as int));
            assert(pre.last() == marks@[i as int]);
            assert(fits_i128(self.cash_e8 + marked_value(pre)));
            let (pos, mid) = marks[i];
            match mid {
                Some(m) => {
                    let v = mul_div_scale(pos, m);
                    eq = eq + v;
                },
                None => {},
            }
            i = i + 1;
        }
        assert(marks@.subrange(0, marks@.len() as int) =~= marks@);
        let clamped: i64 = if eq < i64::MIN as i128 {
            i64::MIN
        } else if eq > i64::MAX as i128 {
            i64::MAX
        } else {
            eq as i64
        };
        self.equity_curve_e8.push(clamped);
    }

    /// Net PnL of the cell: its last equity point (the open position marked), 0 without one.
    pub fn net_pnl_e8(&self) -> (r: i64)
        ensures
            r == (if self.equity_curve_e8@.len() == 0 { 0 } else { self.equity_curve_e8@.last() }),
    {
        let n = self.equity_curve_e8.len();
        if n == 0 {
            0
        } else {
            self.equity_curve_e8[n - 1]
        }
    }

    /// Turnover saturated into `i64`.
    pub fn turnover_i64(&self) -> (r: i64)
        ensures
            r == clamp_i64(self.turnover_e8 as int),
    {
        if self.turnover_e8 < i64::MIN as i128 {
            i64::MIN
        } else if self.turnover_e8 > i64::MAX as i128 {
            i64::MAX
        } else {
            self.turnover_e8 as i64
        }
    }
}

} // verus!
