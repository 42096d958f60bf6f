//! A grid cell on the strategy pipeline: the signal's parameters plus an optional `strategy`
//! block. Without the block the documented defaults apply; a malformed block is an error,
//! never a silent default. The cell hash covers the block and the cost mode, and returns are
//! measured against the notional of the maximal position.

use vstd::prelude::*;

use crate::bucket::trunc_div;
use crate::ledger::{hex_text, sha256_hex, sha256_of};
use crate::market::PRICE_SCALE;
use crate::signals::str_eq;
use crate::sim::types::OrderKind;
use crate::types::{CostsMode, RcError};

verus! {

/// Default maximal position: 1.0 base unit.
pub const DEFAULT_MAX_POSITION_E8: i64 = 100_000_000;

/// Default minimal order: 0.01.
pub const DEFAULT_MIN_ORDER_E8: i64 = 1_000_000;

pub const DEFAULT_INTENT_TTL_MS: i64 = 1_000;

/// Default marketable margin: 1%.
pub const DEFAULT_MARKETABLE_MARGIN_BP: i64 = 100;

/// The parsed `strategy` block of a cell.
#[derive(Clone, Debug, PartialEq, Eq)]
pub struct StrategyCellConfig {
    pub max_position_e8: i64,
    pub min_order_e8: i64,
    pub intent_ttl_ms: i64,
    pub marketable_margin_bp: i64,
    /// `taker` (v1) or `maker`.
    pub kind: String,
}

/// The fields a `strategy` block gives (each may be left out).
#[derive(Clone, Debug, PartialEq, Eq)]
pub struct StrategyBlock {
    pub max_position_e8: Option<i64>,
    pub min_order_e8: Option<i64>,
    pub intent_ttl_ms: Option<i64>,
    pub marketable_margin_bp: Option<i64>,
    pub kind: Option<String>,
}

/// The order kind a kind name stands for.
pub open spec fn kind_of(name: Seq<char>) -> Option<OrderKind> {
    if name == "taker"@ {
        Some(OrderKind::Taker)
    } else if name == "maker"@ {
        Some(OrderKind::Maker)
    } else {
        None
    }
}

impl StrategyCellConfig {
    /// The order kind of the configuration: `taker` or `maker`; any other name is a
    /// `Parse` error (fail-closed).
    pub fn order_kind(&self) -> (r: Result<OrderKind, RcError>)
        ensures
            kind_of(self.kind@) matches Some(k) ==> r == Ok::<OrderKind, RcError>(k),
            kind_of(self.kind@) is None ==> (r matches Err(RcError::Parse(_))),
    {
        proof {
            reveal_strlit("taker");
            reveal_strlit("maker");
        }
        if str_eq(self.kind.as_str(), "taker") {
            Ok(OrderKind::Taker)
        } else if str_eq(self.kind.as_str(), "maker") {
            Ok(OrderKind::Maker)
        } else {
            let mut m = "unknown strategy kind `".to_owned();
            m.append(self.kind.as_str());
            m.append("`");
            Err(RcError::Parse(m))
        }
    }
}

/// A field of the block, or its default.
pub open spec fn field_or(v: Option<i64>, default: i64) -> i64 {
    match v {
        Some(x) => x,
        None => default,
    }
}

/// The block is acceptable: every numeric field (given or defaulted) is positive and the
/// kind (given or `taker`) is `taker` or `maker`.
pub open spec fn block_valid(b: StrategyBlock) -> bool {
    &&& field_or(b.max_position_e8, DEFAULT_MAX_POSITION_E8) > 0
    &&& field_or(b.min_order_e8, DEFAULT_MIN_ORDER_E8) > 0
    &&& field_or(b.intent_ttl_ms, DEFAULT_INTENT_TTL_MS) > 0
    &&& field_or(b.marketable_margin_bp, DEFAULT_MARKETABLE_MARGIN_BP) > 0
    &&& match b.kind {
        Some(k) => kind_of(k@) is Some,
        None => true,
    }
}

/// The configuration takes the block's fields, and the defaults (kind `taker`) for the
/// fields the block leaves out.
pub open spec fn config_from(c: StrategyCellConfig, b: StrategyBlock) -> bool {
    &&& c.max_position_e8 == field_or(b.max_position_e8, DEFAULT_MAX_POSITION_E8)
    &&& c.min_order_e8 == field_or(b.min_order_e8, DEFAULT_MIN_ORDER_E8)
    &&& c.intent_ttl_ms == field_or(b.intent_ttl_ms, DEFAULT_INTENT_TTL_MS)
    &&& c.marketable_margin_bp == field_or(b.marketable_margin_bp, DEFAULT_MARKETABLE_MARGIN_BP)
    &&& c.kind@ == match b.kind {
        Some(k) => k@,
        None => "taker"@,
    }
}

fn positive_or_default(v: Option<i64>, default: i64) -> (r: i64)
    ensures
        r == field_or(v, default),
{
    match v {
        Some(x) => x,
        None => default,
    }
}

/// The configuration of a cell from its `strategy` block. No block: the documented
/// defaults (kind `taker`). A block: its fields, defaults for the fields it leaves out; a
/// non-positive value or an unknown kind is a `Parse` error.
pub fn strategy_cell_config(block: Option<StrategyBlock>) -> (r: Result<StrategyCellConfig, RcError>)
    ensures
        block is None ==> (r matches Ok(c) && config_from(c, StrategyBlock {
            max_position_e8: None,
            min_order_e8: None,
            intent_ttl_ms: None,
            marketable_margin_bp: None,
            kind: None,
        })),
        block matches Some(b) ==> (r is Ok <==> block_valid(b)),
        block matches Some(b) ==> (r matches Ok(c) ==> config_from(c, b)),
        r matches Err(e) ==> e is Parse,
{
    match block {
        None => Ok(StrategyCellConfig {
            max_position_e8: DEFAULT_MAX_POSITION_E8,
            min_order_e8: DEFAULT_MIN_ORDER_E8,
            intent_ttl_ms: DEFAULT_INTENT_TTL_MS,
            marketable_margin_bp: DEFAULT_MARKETABLE_MARGIN_BP,
            kind: "taker".to_owned(),
        }),
        Some(b) => {
            let max_position_e8 = positive_or_default(b.max_position_e8, DEFAULT_MAX_POSITION_E8);
            let min_order_e8 = positive_or_default(b.min_order_e8, DEFAULT_MIN_ORDER_E8);
            let intent_ttl_ms = positive_or_default(b.intent_ttl_ms, DEFAULT_INTENT_TTL_MS);
            let marketable_margin_bp = positive_or_default(b.marketable_margin_bp, DEFAULT_MARKETABLE_MARGIN_BP);
            if max_position_e8 <= 0 || min_order_e8 <= 0 || intent_ttl_ms <= 0 || marketable_margin_bp <= 0 {
                return Err(RcError::Parse("strategy block: values must be positive".to_owned()));
            }
            let kind = match b.kind {
                Some(k) => k,
                None => "taker".to_owned(),
            };
            let cfg = StrategyCellConfig { max_position_e8, min_order_e8, intent_ttl_ms, marketable_margin_bp, kind };
            match cfg.order_kind() {
                Ok(_) => Ok(cfg),
                Err(e) => Err(e),
            }
        },
    }
}

/// Reference capital of a cell: the notional of the maximal position at the first observed
/// mid, `max_position · mid / 1e8`; without a book (`mid ≤ 0`) it is 0.
pub open spec fn capital_ref_spec(max_position_e8: i64, first_mid_e8: i64) -> int {
    if first_mid_e8 <= 0 {
        0
    } else {
        trunc_div(max_position_e8 * first_mid_e8, PRICE_SCALE as int)
    }
}

/// Reference capital of a cell (see `capital_ref_spec`).
pub fn capital_ref_e8(max_position_e8: i64, first_mid_e8: i64) -> (r: i64)
    requires
        i64::MIN <= capital_ref_spec(max_position_e8, first_mid_e8) <= i64::MAX,
    ensures
        r == capital_ref_spec(max_position_e8, first_mid_e8),
{
    if first_mid_e8 <= 0 {
        return 0;
    }
    assert(i64::MIN * i64::MAX <= (max_position_e8 as int) * (first_mid_e8 as int) <= i64::MIN * i64::MIN) by (nonlinear_arith);
    let prod = max_position_e8 as i128 * first_mid_e8 as i128;
    let q: i128 = prod / (PRICE_SCALE as i128);
    q as i64
}

/// Name of a cost mode in the cell hash.
pub open spec fn costs_mode_name(m: CostsMode) -> Seq<char> {
    match m {
        CostsMode::Baseline => "baseline"@,
        CostsMode::CostX15 => "cost_x15"@,
        CostsMode::LatencyX2 => "latency_x2"@,
    }
}

/// The text a cell hash is taken over: the canonical JSON of the cell, then the cost mode.
pub open spec fn cell_hash_input(canonical_cell: Seq<char>, m: CostsMode) -> Seq<char> {
    canonical_cell + "|costs_mode="@ + costs_mode_name(m)
}

/// Canonical ledger hash of a cell: the hex SHA-256 of the cell's canonical JSON (keys in
/// sorted order, as the caller serialises it) followed by the cost mode, so that the signal
/// parameters, the `strategy` block and the cost mode all change it.
pub fn cell_params_hash(canonical_cell: &str, costs_mode: CostsMode) -> (r: String)
    ensures
        r@ == hex_text(sha256_of(vstd::utf8::encode_utf8(cell_hash_input(canonical_cell@, costs_mode)))),
{
    let mut s = canonical_cell.to_owned();
    s.append("|costs_mode=");
    match costs_mode {
        CostsMode::Baseline => s.append("baseline"),
        CostsMode::CostX15 => s.append("cost_x15"),
        CostsMode::LatencyX2 => s.append("latency_x2"),
    }
    sha256_hex(s.as_str().as_bytes())
}

} // verus!
