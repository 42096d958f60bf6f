//! Maker/taker fee rates per venue, from a versioned artifact. A venue without rates is an
//! error, never a zero fee.

use vstd::prelude::*;

use crate::bucket::trunc_div;
use crate::market::{Venue, PRICE_SCALE};
use crate::signals::str_eq;
use crate::sim::types::SimError;

verus! {

/// Rates ×1e8; a negative maker rate is a rebate.
#[derive(Clone, Copy, Debug, PartialEq, Eq, Structural)]
pub struct FeeRates {
    pub maker_rate_e8: i64,
    pub taker_rate_e8: i64,
}

/// Fee schedule: at most one set of rates per venue.
#[derive(Clone, Debug)]
pub struct FeeSchedule {
    binance: Option<FeeRates>,
    hyperliquid: Option<FeeRates>,
    binance_futures: Option<FeeRates>,
}

/// Fee ×1e8 USD of a notional at a rate: `notional · rate / 1e8` with Rust division,
/// then narrowed to `i64` as a cast does.
pub open spec fn fee_spec(notional_e8: i64, rate_e8: i64) -> i64 {
    trunc_div(notional_e8 as int * rate_e8 as int, PRICE_SCALE as int) as i64
}

/// A string holds something besides whitespace.
pub open spec fn has_non_whitespace(s: Seq<char>) -> bool {
    exists|i: int| 0 <= i < s.len() && !is_whitespace_char(#[trigger] s[i])
}

/// The ASCII and common Unicode whitespace that `trim` removes.
pub open spec fn is_whitespace_char(c: char) -> bool {
    c == ' ' || c == '\t' || c == '\n' || c == '\r' || c == '\u{0B}' || c == '\u{0C}' || c == '\u{85}'
        || c == '\u{A0}' || c == '\u{1680}' || ('\u{2000}' <= c <= '\u{200A}') || c == '\u{2028}'
        || c == '\u{2029}' || c == '\u{202F}' || c == '\u{205F}' || c == '\u{3000}'
}

/// Executable form of `is_whitespace_char`.
pub fn is_whitespace(c: char) -> (r: bool)
    ensures
        r == is_whitespace_char(c),
{
    c == ' ' || c == '\t' || c == '\n' || c == '\r' || c == '\u{0B}' || c == '\u{0C}' || c == '\u{85}'
        || c == '\u{A0}' || c == '\u{1680}' || ('\u{2000}' <= c && c <= '\u{200A}') || c == '\u{2028}'
        || c == '\u{2029}' || c == '\u{202F}' || c == '\u{205F}' || c == '\u{3000}'
}

/// Whether `s` is something besides whitespace (the trimmed string is not empty).
pub fn is_non_blank(s: &str) -> (r: bool)
    ensures
        r == has_non_whitespace(s@),
{
    let n = s.unicode_len();
    let mut i: usize = 0;
    while i < n
        invariant
            i <= n,
            n == s@.len(),
            forall|j: int| 0 <= j < i ==> is_whitespace_char(#[trigger] s@[j]),
        decreases n - i,
    {
        if !is_whitespace(s.get_char(i)) {
            return true;
        }
        i = i + 1;
    }
    false
}

/// A venue's entry in the list of rates: one when it has rates, none otherwise.
pub open spec fn rate_entry(f: FeeSchedule, v: Venue) -> Seq<(Venue, FeeRates)> {
    match f.rates(v) {
        Some(r) => seq![(v, r)],
        None => Seq::empty(),
    }
}

impl FeeSchedule {
    /// Rates of a venue, if any.
    pub closed spec fn rates(&self, venue: Venue) -> Option<FeeRates> {
        match venue {
            Venue::Binance => self.binance,
            Venue::Hyperliquid => self.hyperliquid,
            Venue::BinanceFutures => self.binance_futures,
        }
    }

    /// A schedule without any rates.
    pub fn new() -> (r: Self)
        ensures
            forall|v: Venue| r.rates(v) is None,
    {
        FeeSchedule { binance: None, hyperliquid: None, binance_futures: None }
    }

    /// Set the rates of a venue, replacing earlier ones.
    pub fn insert_rates(&mut self, venue: Venue, rates: FeeRates)
        ensures
            final(self).rates(venue) == Some(rates),
            forall|v: Venue| v != venue ==> final(self).rates(v) == old(self).rates(v),
    {
        match venue {
            Venue::Binance => self.binance = Some(rates),
            Venue::Hyperliquid => self.hyperliquid = Some(rates),
            Venue::BinanceFutures => self.binance_futures = Some(rates),
        }
    }

    /// Whether the venue has rates.
    pub fn has(&self, venue: Venue) -> (r: bool)
        ensures
            r == self.rates(venue) is Some,
    {
        self.get(venue).is_some()
    }

    fn get(&self, venue: Venue) -> (r: Option<FeeRates>)
        ensures
            r == self.rates(venue),
    {
        match venue {
            Venue::Binance => self.binance,
            Venue::Hyperliquid => self.hyperliquid,
            Venue::BinanceFutures => self.binance_futures,
        }
    }

    /// Fee ×1e8 USD on a notional (`notional_e8 = price · qty / 1e8`) at the maker or the
    /// taker rate of the venue. A venue without rates is `MissingFees` (the run halts).
    pub fn fee_e8(&self, venue: Venue, symbol: &str, maker: bool, notional_e8: i64) -> (r: Result<i64, SimError>)
        ensures
            self.rates(venue) is None <==> r is Err,
            r matches Err(e) ==> (e matches SimError::MissingFees { venue: v, symbol: s } && v == venue
                && s@ == symbol@),
            r matches Ok(fee) ==> fee == fee_spec(
                notional_e8,
                if maker { self.rates(venue).unwrap().maker_rate_e8 } else { self.rates(venue).unwrap().taker_rate_e8 },
            ),
    {
        match self.get(venue) {
            None => Err(SimError::MissingFees { venue, symbol: symbol.to_owned() }),
            Some(rates) => {
                let rate_e8 = if maker { rates.maker_rate_e8 } else { rates.taker_rate_e8 };
                assert(i64::MIN * i64::MAX <= notional_e8 as int * rate_e8 as int <= i64::MIN * i64::MIN) by (nonlinear_arith);
                let prod = notional_e8 as i128 * rate_e8 as i128;
                let fee: i128 = prod / (PRICE_SCALE as i128);
                Ok(fee as i64)
            }
        }
    }

    /// Accept a parsed fee artifact: its provenance (the exchange's fee page and date) must
    /// say something, else it is a `Parse` error and the schedule is unchanged; otherwise
    /// the venue's rates are set.
    pub fn accept_artifact(&mut self, venue: Venue, provenance: &str, maker_rate_e8: i64, taker_rate_e8: i64) -> (r: Result<(), SimError>)
        ensures
            r is Ok <==> has_non_whitespace(provenance@),
            r matches Err(e) ==> e is Parse,
            r is Ok ==> final(self).rates(venue) == Some(FeeRates { maker_rate_e8, taker_rate_e8 }),
            forall|v: Venue| (r is Err || v != venue) ==> final(self).rates(v) == old(self).rates(v),
    {
        if !is_non_blank(provenance) {
            return Err(SimError::Parse("fee artifact: empty provenance".to_owned()));
        }
        self.insert_rates(venue, FeeRates { maker_rate_e8, taker_rate_e8 });
        Ok(())
    }

    /// The venues with rates, in the order Binance, Hyperliquid, BinanceFutures.
    pub fn entries(&self) -> (r: Vec<(Venue, FeeRates)>)
        ensures
            r@ == rate_entry(*self, Venue::Binance) + rate_entry(*self, Venue::Hyperliquid) + rate_entry(
                *self,
                Venue::BinanceFutures,
            ),
            forall|i: int| 0 <= i < r@.len() ==> self.rates((#[trigger] r@[i]).0) == Some(r@[i].1),
            forall|v: Venue| self.rates(v) is Some ==> exists|i: int| 0 <= i < r@.len() && (#[trigger] r@[i]).0 == v,
    {
        let mut out: Vec<(Venue, FeeRates)> = Vec::new();
        if let Some(r) = self.binance {
            out.push((Venue::Binance, r));
        }
        if let Some(r) = self.hyperliquid {
            out.push((Venue::Hyperliquid, r));
        }
        if let Some(r) = self.binance_futures {
            out.push((Venue::BinanceFutures, r));
        }
        assert(out@ =~= rate_entry(*self, Venue::Binance) + rate_entry(*self, Venue::Hyperliquid) + rate_entry(
            *self,
            Venue::BinanceFutures,
        ));
        proof {
            assert forall|v: Venue| self.rates(v) is Some implies exists|i: int| 0 <= i < out@.len() && (#[trigger] out@[i]).0 == v by {
                match v {
                    Venue::Binance => { assert(out@[0].0 == v); },
                    Venue::Hyperliquid => {
                        if self.binance is Some { assert(out@[1].0 == v); } else { assert(out@[0].0 == v); }
                    },
                    Venue::BinanceFutures => {
                        let k: int = (if self.binance is Some { 1int } else { 0int }) + (if self.hyperliquid is Some { 1int } else { 0int });
                        assert(out@[k].0 == v);
                    },
                }
            }
        }
        out
    }
}

} // verus!
