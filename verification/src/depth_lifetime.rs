//! Lifetime analysis of raw L2 delta levels: every price level born in a contiguous
//! stretch of the delta stream ends in exactly one fate — cancelled by an explicit
//! `size == 0`, censored by a sequence gap, or frozen (still alive when the window ends).
//! Lives are grouped per side into distance bands (bps from the mid at their attribution).

use std::collections::HashSet;
use vstd::prelude::*;

use crate::market::{Level, Side};

verus! {

/// Number of distance bands per side.
pub const N_BANDS: usize = 7;

/// Lower bound (bps, inclusive) of band `i`.
pub open spec fn band_lo(i: int) -> i64 {
    if i == 0 {
        0
    } else if i == 1 {
        150
    } else if i == 2 {
        300
    } else if i == 3 {
        500
    } else if i == 4 {
        800
    } else if i == 5 {
        1500
    } else {
        3000
    }
}

/// Upper bound (bps, exclusive) of band `i`.
pub open spec fn band_hi(i: int) -> i64 {
    if i == 0 {
        150
    } else if i == 1 {
        300
    } else if i == 2 {
        500
    } else if i == 3 {
        800
    } else if i == 4 {
        1500
    } else if i == 5 {
        3000
    } else {
        6000
    }
}

/// Lower bound (bps) of band `i` (`i < N_BANDS`).
pub fn band_lo_bps(i: usize) -> (r: i64)
    requires
        i < N_BANDS,
    ensures
        r == band_lo(i as int),
{
    if i == 0 {
        0
    } else if i == 1 {
        150
    } else if i == 2 {
        300
    } else if i == 3 {
        500
    } else if i == 4 {
        800
    } else if i == 5 {
        1500
    } else {
        3000
    }
}

/// Upper bound (bps) of band `i` (`i < N_BANDS`).
pub fn band_hi_bps(i: usize) -> (r: i64)
    requires
        i < N_BANDS,
    ensures
        r == band_hi(i as int),
{
    if i == 0 {
        150
    } else if i == 1 {
        300
    } else if i == 2 {
        500
    } else if i == 3 {
        800
    } else if i == 4 {
        1500
    } else if i == 5 {
        3000
    } else {
        6000
    }
}

/// One raw L2 delta of the stream (venue and symbol are not needed by the analysis).
#[derive(Clone, Debug, PartialEq)]
pub struct DeltaTick {
    pub bids: Vec<Level>,
    pub asks: Vec<Level>,
    pub first_update_id: u64,
    pub final_update_id: u64,
    pub prev_final_update_id: Option<u64>,
    /// Carried for traceability; the analysis decides by ordering and sequencing only.
    pub ts_exch_ms: i64,
}

/// Lives of one side in one band.
#[derive(Clone, Copy, Debug, PartialEq, Eq)]
pub struct BandReport {
    pub side: Side,
    pub lo_bps: i64,
    pub hi_bps: i64,
    pub lives_born: u64,
    /// Of these: explicitly removed by the exchange.
    pub lives_cancelled: u64,
    /// Of these: alive when the window ended.
    pub lives_frozen: u64,
    /// Of these: vanished through a sequence gap.
    pub lives_censored: u64,
}

/// Report of the analysis: bands ordered Buy before Sell, each side by ascending `lo_bps`.
#[derive(Clone, Debug, PartialEq, Eq)]
pub struct LifetimeReport {
    pub bands: Vec<BandReport>,
    /// Number of detected sequence gaps.
    pub gaps: u64,
}

// ── Model of the stream ─────────────────────────────────────────────────────────────────
//
// Per side the model keeps the raw book (prices with a positive size, for the mid), the
// alive levels in birth order with their birth band once a mid has been known, the lives
// that were cancelled before any mid was known (attributed at the next mid), and per band
// the finished lives by fate. A life's band is that of its price's distance from the first
// mid computed at the end of a contiguous tick from its birth on; a life that never saw
// one counts in the first band.

/// Finished lives of one band: cancelled, frozen, censored.
pub type Tally = (int, int, int);

/// An alive level: its price and, once a mid was known, its birth band.
pub type AliveLevel = (i64, Option<usize>);

/// Abstract state of one side.
pub struct SideModel {
    /// Prices with a positive size in the raw book, in insertion order.
    pub book: Seq<i64>,
    /// Alive levels in birth order.
    pub alive: Seq<AliveLevel>,
    /// Prices of lives cancelled before any mid was known.
    pub pending: Seq<i64>,
    /// Finished lives per band.
    pub counts: Seq<Tally>,
    /// Lives born so far.
    pub births: nat,
}

pub open spec fn zero_counts() -> Seq<Tally> {
    Seq::new(N_BANDS as nat, |i: int| (0int, 0int, 0int))
}

pub open spec fn empty_side() -> SideModel {
    SideModel { book: Seq::empty(), alive: Seq::empty(), pending: Seq::empty(), counts: zero_counts(), births: 0 }
}

pub open spec fn alive_prices(a: Seq<AliveLevel>) -> Seq<i64> {
    a.map_values(|e: AliveLevel| e.0)
}

/// One more finished life in band `b`: `kind` 0 = cancelled, 1 = frozen, 2 = censored.
pub open spec fn bump(c: Seq<Tally>, b: int, kind: int) -> Seq<Tally> {
    let t = c[b];
    c.update(b, if kind == 0 {
        (t.0 + 1, t.1, t.2)
    } else if kind == 1 {
        (t.0, t.1 + 1, t.2)
    } else {
        (t.0, t.1, t.2 + 1)
    })
}

/// The raw book without `p`.
pub open spec fn book_del(s: Seq<i64>, p: i64) -> Seq<i64> {
    if s.contains(p) {
        s.remove(choose|i: int| 0 <= i < s.len() && s[i] == p)
    } else {
        s
    }
}

/// The raw book with `p`.
pub open spec fn book_ins(s: Seq<i64>, p: i64) -> Seq<i64> {
    if s.contains(p) {
        s
    } else {
        s.push(p)
    }
}

/// One level of a contiguous delta. `size == 0` removes the price from the raw book and
/// ends the life of an alive level as cancelled (in its band, or pending when it has none
/// yet); `size > 0` puts the price in the raw book and starts a life unless the level is
/// already alive; a negative size changes nothing.
pub open spec fn apply_level(m: SideModel, l: Level) -> SideModel {
    if l.size == 0 {
        let m1 = SideModel { book: book_del(m.book, l.price), ..m };
        if alive_prices(m.alive).contains(l.price) {
            let i = choose|i: int| 0 <= i < m.alive.len() && m.alive[i].0 == l.price;
            match m.alive[i].1 {
                Some(b) => SideModel { alive: m.alive.remove(i), counts: bump(m.counts, b as int, 0), ..m1 },
                None => SideModel { alive: m.alive.remove(i), pending: m.pending.push(l.price), ..m1 },
            }
        } else {
            m1
        }
    } else if l.size > 0 {
        if alive_prices(m.alive).contains(l.price) {
            SideModel { book: book_ins(m.book, l.price), ..m }
        } else {
            SideModel {
                book: book_ins(m.book, l.price),
                alive: m.alive.push((l.price, None)),
                births: m.births + 1,
                ..m
            }
        }
    } else {
        m
    }
}

pub open spec fn apply_levels(m: SideModel, levels: Seq<Level>) -> SideModel
    decreases levels.len(),
{
    if levels.len() == 0 {
        m
    } else {
        apply_level(apply_levels(m, levels.drop_last()), levels.last())
    }
}

/// Band of a distance in bps (`[lo, hi)`; 6000 bps and beyond in the last band).
pub open spec fn band_of_bps(a: int) -> usize {
    if a < 150 {
        0
    } else if a < 300 {
        1
    } else if a < 500 {
        2
    } else if a < 800 {
        3
    } else if a < 1500 {
        4
    } else if a < 3000 {
        5
    } else {
        6
    }
}

/// `|bps|` of a price from the mid: `(price − mid)·10 000` saturated to `i64`, divided by
/// the mid toward zero.
pub open spec fn abs_bps(price: i64, mid: i64) -> int {
    let prod = (price - mid) * 10_000;
    let sat = if prod > i64::MAX { i64::MAX as int } else if prod < i64::MIN { i64::MIN as int } else { prod };
    let bps = crate::bucket::trunc_div(sat, mid as int);
    if bps < 0 { -bps } else { bps }
}

/// Band of a price's distance from the mid; the first band when the mid is not positive.
pub open spec fn band_of(price: i64, mid: i64) -> usize {
    if mid <= 0 {
        0
    } else {
        band_of_bps(abs_bps(price, mid))
    }
}

/// Alive levels with every band still unknown set from `mid`.
pub open spec fn attributed(a: Seq<AliveLevel>, mid: i64) -> Seq<AliveLevel> {
    a.map_values(|e: AliveLevel| if e.1 is None { (e.0, Some(band_of(e.0, mid))) } else { e })
}

/// The pending cancelled lives counted in the bands of their prices' distance from `mid`.
pub open spec fn bump_cancels(c: Seq<Tally>, ps: Seq<i64>, mid: i64) -> Seq<Tally>
    decreases ps.len(),
{
    if ps.len() == 0 {
        c
    } else {
        bump(bump_cancels(c, ps.drop_last(), mid), band_of(ps.last(), mid) as int, 0)
    }
}

/// A known mid attributes the alive levels without a band and the pending lives.
pub open spec fn attribute_side(m: SideModel, mid: i64) -> SideModel {
    SideModel {
        alive: attributed(m.alive, mid),
        pending: Seq::empty(),
        counts: bump_cancels(m.counts, m.pending, mid),
        ..m
    }
}

/// Band an alive level ends in: its birth band, the first band when it has none.
pub open spec fn entry_band(e: AliveLevel) -> int {
    match e.1 {
        Some(b) => b as int,
        None => 0,
    }
}

/// Every alive level ends with fate `kind` in its band.
pub open spec fn bump_ends(c: Seq<Tally>, a: Seq<AliveLevel>, kind: int) -> Seq<Tally>
    decreases a.len(),
{
    if a.len() == 0 {
        c
    } else {
        bump(bump_ends(c, a.drop_last(), kind), entry_band(a.last()), kind)
    }
}

/// A sequence gap censors every alive level (the raw book and the pending lives stay).
pub open spec fn censor_side(m: SideModel) -> SideModel {
    SideModel { alive: Seq::empty(), counts: bump_ends(m.counts, m.alive, 2), ..m }
}

/// The end of the window freezes every alive level.
pub open spec fn freeze_side(m: SideModel) -> SideModel {
    SideModel { alive: Seq::empty(), counts: bump_ends(m.counts, m.alive, 1), ..m }
}

/// Lives still pending at the end count as cancelled in the first band.
pub open spec fn flush_side(m: SideModel) -> SideModel {
    let t = m.counts[0];
    SideModel { pending: Seq::empty(), counts: m.counts.update(0, (t.0 + m.pending.len(), t.1, t.2)), ..m }
}

/// Final state of a side at the end of the window.
pub open spec fn final_side(m: SideModel) -> SideModel {
    flush_side(freeze_side(m))
}

pub open spec fn seq_max(s: Seq<i64>) -> i64
    decreases s.len(),
{
    if s.len() <= 1 {
        s[0]
    } else {
        let m = seq_max(s.drop_last());
        if s.last() > m { s.last() } else { m }
    }
}

pub open spec fn seq_min(s: Seq<i64>) -> i64
    decreases s.len(),
{
    if s.len() <= 1 {
        s[0]
    } else {
        let m = seq_min(s.drop_last());
        if s.last() < m { s.last() } else { m }
    }
}

/// Mid of the raw books: `(best bid + best ask) / 2` toward zero; `None` while a side is
/// empty.
pub open spec fn model_mid(bids: Seq<i64>, asks: Seq<i64>) -> Option<i64> {
    if bids.len() > 0 && asks.len() > 0 {
        Some(crate::bucket::trunc_div(seq_max(bids) + seq_min(asks), 2) as i64)
    } else {
        None
    }
}

/// Abstract state of the whole analysis.
pub struct LifetimeModel {
    pub prev_final: Option<u64>,
    pub gaps: nat,
    pub bids: SideModel,
    pub asks: SideModel,
}

/// Continuity rule: the first delta is accepted as is; a spot delta (no `pu`) must start at
/// the previous final id + 1 (saturating); a futures delta must name the previous final id.
pub open spec fn tick_is_gap(prev: Option<u64>, t: DeltaTick) -> bool {
    match prev {
        None => false,
        Some(p) => match t.prev_final_update_id {
            None => t.first_update_id != (if p == u64::MAX { u64::MAX } else { (p + 1) as u64 }),
            Some(pu) => pu != p,
        },
    }
}

/// A gap tick censors both sides and is not applied (the previous final id is kept);
/// a contiguous tick applies bids then asks, then, when the raw books have a mid,
/// attributes both sides from it, and becomes the previous tick.
pub open spec fn model_step(m: LifetimeModel, t: DeltaTick) -> LifetimeModel {
    if tick_is_gap(m.prev_final, t) {
        LifetimeModel { gaps: m.gaps + 1, bids: censor_side(m.bids), asks: censor_side(m.asks), ..m }
    } else {
        let b = apply_levels(m.bids, t.bids@);
        let a = apply_levels(m.asks, t.asks@);
        match model_mid(b.book, a.book) {
            Some(mid) => LifetimeModel {
                prev_final: Some(t.final_update_id),
                bids: attribute_side(b, mid),
                asks: attribute_side(a, mid),
                ..m
            },
            None => LifetimeModel { prev_final: Some(t.final_update_id), bids: b, asks: a, ..m },
        }
    }
}

pub open spec fn run_model(ticks: Seq<DeltaTick>) -> LifetimeModel
    decreases ticks.len(),
{
    if ticks.len() == 0 {
        LifetimeModel { prev_final: None, gaps: 0, bids: empty_side(), asks: empty_side() }
    } else {
        model_step(run_model(ticks.drop_last()), ticks.last())
    }
}

/// Continuity of the delta stream, as `analyze` counts it: after ticks whose last
/// contiguous tick ended at final id `p`, a futures tick (one that names `pu`) is a gap
/// exactly when `pu != p`, whatever its first id; a spot tick exactly when its first id is
/// not `p + 1` (at the top of the id range, not `p` again). The very first tick is never a
/// gap. A gap counts once, censors every alive level and keeps the previous final id; a
/// contiguous tick counts nothing and moves the previous final id to its own.
pub proof fn law_gap_rule(ticks: Seq<DeltaTick>, t: DeltaTick)
    ensures
        ({
            let before = run_model(ticks);
            let after = run_model(ticks.push(t));
            let gap = match before.prev_final {
                None => false,
                Some(p) => match t.prev_final_update_id {
                    Some(pu) => pu != p,
                    None => !(t.first_update_id as int == p as int + 1 || (p == u64::MAX && t.first_update_id == u64::MAX)),
                },
            };
            &&& gap ==> after.gaps == before.gaps + 1 && after.prev_final == before.prev_final
                && after.bids.alive.len() == 0 && after.asks.alive.len() == 0
            &&& !gap ==> after.gaps == before.gaps && after.prev_final == Some(t.final_update_id)
        }),
{
    assert(ticks.push(t).drop_last() =~= ticks);
    assert(ticks.push(t).last() == t);
}

/// Number of levels carried by the ticks.
pub open spec fn total_levels(ticks: Seq<DeltaTick>) -> nat
    decreases ticks.len(),
{
    if ticks.len() == 0 {
        0
    } else {
        total_levels(ticks.drop_last()) + ticks.last().bids@.len() + ticks.last().asks@.len()
    }
}

/// The band report `b` is band `i` of `side` with the tally `t`; its born count is the sum
/// of the three fates.
pub open spec fn band_matches(b: BandReport, side: Side, i: int, t: Tally) -> bool {
    &&& b.side == side
    &&& b.lo_bps == band_lo(i)
    &&& b.hi_bps == band_hi(i)
    &&& b.lives_cancelled == t.0
    &&& b.lives_frozen == t.1
    &&& b.lives_censored == t.2
    &&& b.lives_born == t.0 + t.1 + t.2
}

pub open spec fn sum_born(s: Seq<BandReport>) -> int
    decreases s.len(),
{
    if s.len() == 0 {
        0
    } else {
        sum_born(s.drop_last()) + s.last().lives_born
    }
}

// ── Tallies ─────────────────────────────────────────────────────────────────────────────

/// All finished lives of the tallies.
pub open spec fn sum_all(c: Seq<Tally>) -> int
    decreases c.len(),
{
    if c.len() == 0 {
        0
    } else {
        sum_all(c.drop_last()) + c.last().0 + c.last().1 + c.last().2
    }
}

pub open spec fn tallies_nonneg(c: Seq<Tally>) -> bool {
    forall|i: int| 0 <= i < c.len() ==> (#[trigger] c[i]).0 >= 0 && c[i].1 >= 0 && c[i].2 >= 0
}

/// Lives of a side in any state: finished, pending or alive.
pub open spec fn lives(m: SideModel) -> int {
    sum_all(m.counts) + m.pending.len() + m.alive.len()
}

/// A known band is one of the seven.
pub open spec fn band_ok(e: AliveLevel) -> bool {
    match e.1 {
        Some(b) => b < N_BANDS,
        None => true,
    }
}

/// The model's own invariant: seven nonnegative tallies, known bands in range, no price
/// twice alive or twice in the raw book, and every life born counted exactly once.
pub open spec fn model_ok(m: SideModel) -> bool {
    &&& m.counts.len() == N_BANDS
    &&& tallies_nonneg(m.counts)
    &&& forall|j: int| 0 <= j < m.alive.len() ==> band_ok(#[trigger] m.alive[j])
    &&& alive_prices(m.alive).no_duplicates()
    &&& m.book.no_duplicates()
    &&& lives(m) == m.births
}

proof fn lemma_sum_all_bump(c: Seq<Tally>, b: int, kind: int)
    requires
        0 <= b < c.len(),
    ensures
        bump(c, b, kind).len() == c.len(),
        sum_all(bump(c, b, kind)) == sum_all(c) + 1,
        tallies_nonneg(c) ==> tallies_nonneg(bump(c, b, kind)),
    decreases c.len(),
{
    if b == c.len() - 1 {
        assert(bump(c, b, kind).drop_last() =~= c.drop_last());
    } else {
        lemma_sum_all_bump(c.drop_last(), b, kind);
        assert(bump(c, b, kind).drop_last() =~= bump(c.drop_last(), b, kind));
    }
}

proof fn lemma_sum_all_update(c: Seq<Tally>, b: int, v: Tally)
    requires
        0 <= b < c.len(),
    ensures
        sum_all(c.update(b, v)) == sum_all(c) - (c[b].0 + c[b].1 + c[b].2) + (v.0 + v.1 + v.2),
    decreases c.len(),
{
    if b == c.len() - 1 {
        assert(c.update(b, v).drop_last() =~= c.drop_last());
    } else {
        lemma_sum_all_update(c.drop_last(), b, v);
        assert(c.update(b, v).drop_last() =~= c.drop_last().update(b, v));
    }
}

proof fn lemma_tally_le_sum(c: Seq<Tally>, i: int)
    requires
        tallies_nonneg(c),
        0 <= i < c.len(),
    ensures
        0 <= c[i].0 + c[i].1 + c[i].2 <= sum_all(c),
    decreases c.len(),
{
    lemma_sum_all_nonneg(c.drop_last());
    if i < c.len() - 1 {
        lemma_tally_le_sum(c.drop_last(), i);
    }
}

proof fn lemma_sum_all_nonneg(c: Seq<Tally>)
    requires
        tallies_nonneg(c),
    ensures
        sum_all(c) >= 0,
    decreases c.len(),
{
    if c.len() > 0 {
        lemma_sum_all_nonneg(c.drop_last());
    }
}

proof fn lemma_sum_all_zero(c: Seq<Tally>)
    requires
        forall|i: int| 0 <= i < c.len() ==> c[i] == (0int, 0int, 0int),
    ensures
        sum_all(c) == 0,
    decreases c.len(),
{
    if c.len() > 0 {
        lemma_sum_all_zero(c.drop_last());
    }
}

proof fn lemma_zero_counts()
    ensures
        zero_counts().len() == N_BANDS,
        tallies_nonneg(zero_counts()),
        sum_all(zero_counts()) == 0,
{
    lemma_sum_all_zero(zero_counts());
}

proof fn lemma_bump_cancels(c: Seq<Tally>, ps: Seq<i64>, mid: i64)
    requires
        c.len() == N_BANDS,
    ensures
        bump_cancels(c, ps, mid).len() == N_BANDS,
        sum_all(bump_cancels(c, ps, mid)) == sum_all(c) + ps.len(),
        tallies_nonneg(c) ==> tallies_nonneg(bump_cancels(c, ps, mid)),
    decreases ps.len(),
{
    if ps.len() > 0 {
        lemma_bump_cancels(c, ps.drop_last(), mid);
        lemma_sum_all_bump(bump_cancels(c, ps.drop_last(), mid), band_of(ps.last(), mid) as int, 0);
    }
}

proof fn lemma_bump_ends(c: Seq<Tally>, a: Seq<AliveLevel>, kind: int)
    requires
        c.len() == N_BANDS,
        forall|j: int| 0 <= j < a.len() ==> band_ok(#[trigger] a[j]),
    ensures
        bump_ends(c, a, kind).len() == N_BANDS,
        sum_all(bump_ends(c, a, kind)) == sum_all(c) + a.len(),
        tallies_nonneg(c) ==> tallies_nonneg(bump_ends(c, a, kind)),
    decreases a.len(),
{
    if a.len() > 0 {
        let d = a.drop_last();
        assert forall|j: int| 0 <= j < d.len() implies band_ok(#[trigger] d[j]) by {
            assert(d[j] == a[j]);
        }
        lemma_bump_ends(c, d, kind);
        assert(band_ok(a[a.len() - 1]));
        lemma_sum_all_bump(bump_ends(c, d, kind), entry_band(a.last()), kind);
    }
}

// ── Executable per-side state ───────────────────────────────────────────────────────────

type Counts = (u64, u64, u64);

pub open spec fn counts_view(c: Seq<Counts>) -> Seq<Tally> {
    c.map_values(|t: Counts| (t.0 as int, t.1 as int, t.2 as int))
}

/// Per-side reducer, the executable form of `SideModel`, with lookups that keep the work
/// per level bounded: the prices of the raw book and of the alive levels as sets, the raw
/// book's extremes, and where the alive levels without a band begin.
struct SideBook {
    book: Vec<i64>,
    states: Vec<AliveLevel>,
    counts: Vec<Counts>,
    pending: Vec<i64>,
    book_set: HashSet<i64>,
    alive_set: HashSet<i64>,
    high: i64,
    low: i64,
    fresh: usize,
}

proof fn lemma_push_contains(s: Seq<i64>, p: i64, x: i64)
    ensures
        s.push(p).contains(x) <==> (s.contains(x) || x == p),
{
    if s.contains(x) {
        let k = choose|k: int| 0 <= k < s.len() && s[k] == x;
        assert(s.push(p)[k] == x);
    }
    if x == p {
        assert(s.push(p)[s.len() as int] == x);
    }
    if s.push(p).contains(x) {
        let k = choose|k: int| 0 <= k < s.push(p).len() && s.push(p)[k] == x;
        if k < s.len() {
            assert(s[k] == x);
        }
    }
}

proof fn lemma_remove_contains(s: Seq<i64>, j: int, x: i64)
    requires
        0 <= j < s.len(),
        s.no_duplicates(),
    ensures
        s.remove(j).contains(x) <==> (s.contains(x) && x != s[j]),
{
    let r = s.remove(j);
    if r.contains(x) {
        let k = choose|k: int| 0 <= k < r.len() && r[k] == x;
        let k0 = if k < j { k } else { k + 1 };
        assert(s[k0] == x);
        assert(k0 != j);
    }
    if s.contains(x) && x != s[j] {
        let k = choose|k: int| 0 <= k < s.len() && s[k] == x;
        assert(k != j);
        let k1 = if k < j { k } else { k - 1 };
        assert(r[k1] == x);
    }
}

proof fn lemma_seq_extremes_push(s: Seq<i64>, p: i64)
    ensures
        s.len() == 0 ==> seq_max(s.push(p)) == p && seq_min(s.push(p)) == p,
        s.len() > 0 ==> seq_max(s.push(p)) == (if p > seq_max(s) { p } else { seq_max(s) }),
        s.len() > 0 ==> seq_min(s.push(p)) == (if p < seq_min(s) { p } else { seq_min(s) }),
{
    assert(s.push(p).drop_last() =~= s);
    assert(s.push(p).last() == p);
}

proof fn lemma_view_nonneg(c: Seq<Counts>)
    ensures
        tallies_nonneg(counts_view(c)),
        counts_view(c).len() == c.len(),
{
    assert forall|i: int| 0 <= i < counts_view(c).len() implies (#[trigger] counts_view(c)[i]).0 >= 0
        && counts_view(c)[i].1 >= 0 && counts_view(c)[i].2 >= 0 by {}
}

impl SideBook {
    spec fn wf(&self, m: SideModel) -> bool {
        &&& self.book@ == m.book
        &&& self.states@ == m.alive
        &&& self.pending@ == m.pending
        &&& counts_view(self.counts@) == m.counts
        &&& model_ok(m)
        &&& self.book_ok()
        &&& self.alive_ok()
    }

    /// The raw book's set and extremes follow it.
    spec fn book_ok(&self) -> bool {
        &&& forall|x: i64| #![trigger self.book_set@.contains(x)] self.book_set@.contains(x) <==> self.book@.contains(x)
        &&& self.book@.len() > 0 ==> self.high == seq_max(self.book@) && self.low == seq_min(self.book@)
    }

    /// The alive set follows the alive levels; those without a band are the last ones.
    spec fn alive_ok(&self) -> bool {
        &&& forall|x: i64| #![trigger self.alive_set@.contains(x)] self.alive_set@.contains(x) <==> alive_prices(self.states@).contains(x)
        &&& self.fresh <= self.states@.len()
        &&& forall|a: int| 0 <= a < self.fresh ==> (#[trigger] self.states@[a]).1 is Some
        &&& forall|a: int| self.fresh <= a < self.states@.len() ==> (#[trigger] self.states@[a]).1 is None
    }

    fn new() -> (r: SideBook)
        ensures
            r.wf(empty_side()),
    {
        let mut counts: Vec<Counts> = Vec::new();
        let mut k: usize = 0;
        while k < N_BANDS
            invariant
                k <= N_BANDS,
                counts@.len() == k,
                forall|i: int| 0 <= i < counts@.len() ==> counts@[i] == (0u64, 0u64, 0u64),
            decreases N_BANDS - k,
        {
            counts.push((0, 0, 0));
            k = k + 1;
        }
        proof {
            lemma_zero_counts();
            assert(counts_view(counts@) =~= zero_counts());
        }
        let r = SideBook {
            book: Vec::new(),
            states: Vec::new(),
            counts,
            pending: Vec::new(),
            book_set: HashSet::new(),
            alive_set: HashSet::new(),
            high: 0,
            low: 0,
            fresh: 0,
        };
        assert(alive_prices(r.states@) =~= Seq::<i64>::empty());
        r
    }

    /// One more finished life in band `b` (`kind` as in `bump`).
    fn bump(&mut self, b: usize, kind: u8)
        requires
            b < N_BANDS,
            kind <= 2,
            old(self).counts@.len() == N_BANDS,
            sum_all(counts_view(old(self).counts@)) < u64::MAX,
        ensures
            final(self).book == old(self).book,
            final(self).states == old(self).states,
            final(self).pending == old(self).pending,
            final(self).book_set == old(self).book_set,
            final(self).alive_set == old(self).alive_set,
            final(self).high == old(self).high,
            final(self).low == old(self).low,
            final(self).fresh == old(self).fresh,
            final(self).counts@.len() == N_BANDS,
            counts_view(final(self).counts@) == bump(counts_view(old(self).counts@), b as int, kind as int),
    {
        proof {
            lemma_view_nonneg(self.counts@);
            lemma_tally_le_sum(counts_view(self.counts@), b as int);
        }
        let (c, f, ce) = self.counts[b];
        let v: Counts = if kind == 0 {
            (c + 1, f, ce)
        } else if kind == 1 {
            (c, f + 1, ce)
        } else {
            (c, f, ce + 1)
        };
        self.counts.set(b, v);
        assert(counts_view(self.counts@) =~= bump(counts_view(old(self).counts@), b as int, kind as int));
    }

    fn find_state(&self, price: i64) -> (r: Option<usize>)
        ensures
            match r {
                Some(j) => j < self.states@.len() && self.states@[j as int].0 == price,
                None => !alive_prices(self.states@).contains(price),
            },
    {
        let mut j: usize = 0;
        while j < self.states.len()
            invariant
                j <= self.states@.len(),
                forall|k: int| 0 <= k < j ==> self.states@[k].0 != price,
            decreases self.states@.len() - j,
        {
            if self.states[j].0 == price {
                return Some(j);
            }
            j = j + 1;
        }
        proof {
            if alive_prices(self.states@).contains(price) {
                let k = choose|k: int| 0 <= k < alive_prices(self.states@).len() && alive_prices(self.states@)[k] == price;
                assert(self.states@[k].0 == price);
            }
        }
        None
    }

    fn book_remove(&mut self, price: i64)
        requires
            old(self).book@.no_duplicates(),
            old(self).book_ok(),
        ensures
            final(self).book@ == book_del(old(self).book@, price),
            final(self).book@.no_duplicates(),
            final(self).book_ok(),
            final(self).states == old(self).states,
            final(self).counts == old(self).counts,
            final(self).pending == old(self).pending,
            final(self).alive_set == old(self).alive_set,
            final(self).fresh == old(self).fresh,
    {
        broadcast use vstd::std_specs::hash::group_hash_axioms;
        let ghost s = self.book@;
        if !self.book_set.contains(&price) {
            assert(!self.book_set@.contains(price));
            return;
        }
        assert(self.book_set@.contains(price));
        let mut j: usize = 0;
        while j < self.book.len()
            invariant
                j <= self.book@.len(),
                self.book@ == s,
                s.no_duplicates(),
                s.contains(price),
                forall|k: int| 0 <= k < j ==> s[k] != price,
                self.states == old(self).states,
                self.counts == old(self).counts,
                self.pending == old(self).pending,
                self.alive_set == old(self).alive_set,
                self.fresh == old(self).fresh,
                self.book_set == old(self).book_set,
                s == old(self).book@,
                forall|x: i64| #![trigger self.book_set@.contains(x)] self.book_set@.contains(x) <==> s.contains(x),
            decreases self.book@.len() - j,
        {
            if self.book[j] == price {
                proof {
                    let i = choose|i: int| 0 <= i < s.len() && s[i] == price;
                    assert(i == j as int);
                }
                self.book.remove(j);
                self.book_set.remove(&price);
                proof {
                    assert forall|a: int, b: int| 0 <= a < b < self.book@.len() implies self.book@[a] != self.book@[b] by {
                        let a0 = if a < j { a } else { a + 1 };
                        let b0 = if b < j { b } else { b + 1 };
                        assert(self.book@[a] == s[a0]);
                        assert(self.book@[b] == s[b0]);
                    }
                    assert forall|x: i64| #![trigger self.book_set@.contains(x)] self.book_set@.contains(x) <==> self.book@.contains(x) by {
                        lemma_remove_contains(s, j as int, x);
                    }
                }
                if self.book.len() > 0 {
                    match self.best_bid() {
                        Some(h) => { self.high = h; },
                        None => {},
                    }
                    match self.best_ask() {
                        Some(l) => { self.low = l; },
                        None => {},
                    }
                }
                return;
            }
            j = j + 1;
        }
        proof {
            let k = choose|k: int| 0 <= k < s.len() && s[k] == price;
            assert(s[k] != price);
        }
    }

    fn book_insert(&mut self, price: i64)
        requires
            old(self).book@.no_duplicates(),
            old(self).book_ok(),
        ensures
            final(self).book@ == book_ins(old(self).book@, price),
            final(self).book@.no_duplicates(),
            final(self).book_ok(),
            final(self).states == old(self).states,
            final(self).counts == old(self).counts,
            final(self).pending == old(self).pending,
            final(self).alive_set == old(self).alive_set,
            final(self).fresh == old(self).fresh,
    {
        broadcast use vstd::std_specs::hash::group_hash_axioms;
        let ghost s = self.book@;
        if self.book_set.contains(&price) {
            assert(self.book_set@.contains(price));
            assert(s.contains(price));
            return;
        }
        assert(!s.contains(price));
        self.book.push(price);
        self.book_set.insert(price);
        proof {
            lemma_seq_extremes_push(s, price);
            assert forall|a: int, b: int| 0 <= a < b < self.book@.len() implies self.book@[a] != self.book@[b] by {
                if b == s.len() {
                    assert(self.book@[a] == s[a]);
                } else {
                    assert(self.book@[a] == s[a]);
                    assert(self.book@[b] == s[b]);
                }
            }
            assert forall|x: i64| #![trigger self.book_set@.contains(x)] self.book_set@.contains(x) <==> self.book@.contains(x) by {
                lemma_push_contains(s, price, x);
            }
        }
        if self.book.len() == 1 {
            self.high = price;
            self.low = price;
        } else {
            if price > self.high {
                self.high = price;
            }
            if price < self.low {
                self.low = price;
            }
        }
    }

    /// Apply one level of a contiguous delta.
    fn apply_level_exec(&mut self, l: Level, Ghost(m): Ghost<SideModel>)
        requires
            old(self).wf(m),
            m.births + 1 < u64::MAX,
        ensures
            final(self).wf(apply_level(m, l)),
            apply_level(m, l).births <= m.births + 1,
    {
        broadcast use vstd::std_specs::hash::group_hash_axioms;
        proof {
            lemma_view_nonneg(self.counts@);
            lemma_sum_all_nonneg(m.counts);
        }
        if l.size == 0 {
            self.book_remove(l.price);
            if !self.alive_set.contains(&l.price) {
                assert(!alive_prices(m.alive).contains(l.price));
                return;
            }
            assert(alive_prices(m.alive).contains(l.price));
            match self.find_state(l.price) {
                Some(j) => {
                    let ghost old_states = self.states@;
                    let ghost old_fresh = self.fresh;
                    assert(alive_prices(m.alive)[j as int] == l.price);
                    let ghost i = choose|i: int| 0 <= i < m.alive.len() && m.alive[i].0 == l.price;
                    assert(alive_prices(m.alive)[i] == l.price);
                    assert(i == j as int);
                    let e = self.states.remove(j);
                    self.alive_set.remove(&l.price);
                    if j < self.fresh {
                        self.fresh = self.fresh - 1;
                    }
                    proof {
                        assert(e == m.alive[i]);
                        assert forall|a: int| 0 <= a < self.states@.len() implies band_ok(#[trigger] self.states@[a]) by {
                            let a0 = if a < j { a } else { a + 1 };
                            assert(self.states@[a] == old_states[a0]);
                        }
                        let ap = alive_prices(self.states@);
                        assert(ap =~= alive_prices(m.alive).remove(i));
                        assert forall|a: int, b: int| 0 <= a < b < ap.len() implies ap[a] != ap[b] by {
                            let a0 = if a < i { a } else { a + 1 };
                            let b0 = if b < i { b } else { b + 1 };
                            assert(ap[a] == alive_prices(m.alive)[a0]);
                            assert(ap[b] == alive_prices(m.alive)[b0]);
                        }
                        assert forall|x: i64| #![trigger self.alive_set@.contains(x)] self.alive_set@.contains(x) <==> ap.contains(x) by {
                            lemma_remove_contains(alive_prices(m.alive), i, x);
                        }
                        assert forall|a: int| 0 <= a < self.fresh implies (#[trigger] self.states@[a]).1 is Some by {
                            let a0 = if a < j { a } else { a + 1 };
                            assert(self.states@[a] == old_states[a0]);
                        }
                        assert forall|a: int| self.fresh <= a < self.states@.len() implies (#[trigger] self.states@[a]).1 is None by {
                            let a0 = if a < j { a } else { a + 1 };
                            assert(self.states@[a] == old_states[a0]);
                        }
                    }
                    match e.1 {
                        Some(b) => {
                            proof {
                                assert(band_ok(m.alive[i]));
                            }
                            self.bump(b, 0);
                            proof {
                                lemma_sum_all_bump(m.counts, b as int, 0);
                            }
                        },
                        None => {
                            self.pending.push(l.price);
                        },
                    }
                },
                None => {},
            }
        } else if l.size > 0 {
            self.book_insert(l.price);
            if self.alive_set.contains(&l.price) {
                assert(alive_prices(m.alive).contains(l.price));
            } else {
                assert(!alive_prices(m.alive).contains(l.price));
                let ghost old_states = self.states@;
                self.states.push((l.price, None));
                self.alive_set.insert(l.price);
                proof {
                    assert forall|a: int| 0 <= a < self.states@.len() implies band_ok(#[trigger] self.states@[a]) by {
                        if a < old_states.len() {
                            assert(self.states@[a] == old_states[a]);
                        }
                    }
                    let ap = alive_prices(self.states@);
                    assert(ap =~= alive_prices(m.alive).push(l.price));
                    assert forall|a: int, b: int| 0 <= a < b < ap.len() implies ap[a] != ap[b] by {
                        if b == m.alive.len() {
                            assert(ap[a] == alive_prices(m.alive)[a]);
                            assert(alive_prices(m.alive).contains(ap[a]));
                        } else {
                            assert(ap[a] == alive_prices(m.alive)[a]);
                            assert(ap[b] == alive_prices(m.alive)[b]);
                        }
                    }
                    assert forall|x: i64| #![trigger self.alive_set@.contains(x)] self.alive_set@.contains(x) <==> ap.contains(x) by {
                        lemma_push_contains(alive_prices(m.alive), l.price, x);
                    }
                    assert forall|a: int| 0 <= a < self.fresh implies (#[trigger] self.states@[a]).1 is Some by {
                        assert(self.states@[a] == old_states[a]);
                    }
                    assert forall|a: int| self.fresh <= a < self.states@.len() implies (#[trigger] self.states@[a]).1 is None by {
                        if a < old_states.len() {
                            assert(self.states@[a] == old_states[a]);
                        }
                    }
                }
            }
        }
    }

    /// Apply the levels of one side of a contiguous delta, in order.
    fn apply_delta(&mut self, levels: &Vec<Level>, Ghost(m): Ghost<SideModel>)
        requires
            old(self).wf(m),
            m.births + levels@.len() < u64::MAX,
        ensures
            final(self).wf(apply_levels(m, levels@)),
            apply_levels(m, levels@).births <= m.births + levels@.len(),
    {
        let mut i: usize = 0;
        while i < levels.len()
            invariant
                i <= levels@.len(),
                self.wf(apply_levels(m, levels@.subrange(0, i as int))),
                apply_levels(m, levels@.subrange(0, i as int)).births <= m.births + i,
                m.births + levels@.len() < u64::MAX,
            decreases levels@.len() - i,
        {
            let ghost cur = apply_levels(m, levels@.subrange(0, i as int));
            assert(levels@.subrange(0, i + 1).drop_last() =~= levels@.subrange(0, i as int));
            self.apply_level_exec(levels[i], Ghost(cur));
            i = i + 1;
        }
        assert(levels@.subrange(0, levels@.len() as int) =~= levels@);
    }

    /// Attribute every alive level without a band, and every pending life, to the band of
    /// its price's distance from `mid`.
    fn attribute(&mut self, mid: i64, Ghost(m): Ghost<SideModel>)
        requires
            old(self).wf(m),
            m.births < u64::MAX,
        ensures
            final(self).wf(attribute_side(m, mid)),
    {
        let ghost target = attributed(m.alive, mid);
        let mut j: usize = self.fresh;
        assert forall|a: int| 0 <= a < j implies #[trigger] self.states@[a] == target[a] by {
            assert(self.states@[a].1 is Some);
        }
        while j < self.states.len()
            invariant
                self.fresh <= j <= self.states@.len(),
                self.states@.len() == m.alive.len(),
                target == attributed(m.alive, mid),
                forall|a: int| 0 <= a < j ==> #[trigger] self.states@[a] == target[a],
                forall|a: int| j <= a < self.states@.len() ==> #[trigger] self.states@[a] == m.alive[a],
                self.book == old(self).book,
                self.counts == old(self).counts,
                self.pending == old(self).pending,
                self.book_set == old(self).book_set,
                self.alive_set == old(self).alive_set,
                self.high == old(self).high,
                self.low == old(self).low,
                self.fresh == old(self).fresh,
            decreases self.states@.len() - j,
        {
            let (price, band) = self.states[j];
            assert(self.states@[j as int] == m.alive[j as int]);
            if band.is_none() {
                let b = band_index_for(price, mid);
                self.states.set(j, (price, Some(b)));
            }
            assert(self.states@[j as int] == target[j as int]);
            j = j + 1;
        }
        assert(self.states@ =~= target);
        self.fresh = self.states.len();
        proof {
            lemma_view_nonneg(self.counts@);
            lemma_sum_all_nonneg(m.counts);
            assert forall|a: int| 0 <= a < self.fresh implies (#[trigger] self.states@[a]).1 is Some by {
                assert(self.states@[a] == target[a]);
            }
        }
        let mut k: usize = 0;
        while k < self.pending.len()
            invariant
                k <= self.pending@.len(),
                self.pending@ == m.pending,
                m.counts.len() == N_BANDS,
                lives(m) == m.births,
                m.births < u64::MAX,
                sum_all(m.counts) >= 0,
                self.counts@.len() == N_BANDS,
                counts_view(self.counts@) == bump_cancels(m.counts, m.pending.subrange(0, k as int), mid),
                sum_all(counts_view(self.counts@)) == sum_all(m.counts) + k,
                self.states@ == target,
                self.book == old(self).book,
                self.book_set == old(self).book_set,
                self.alive_set == old(self).alive_set,
                self.high == old(self).high,
                self.low == old(self).low,
                self.fresh == self.states@.len(),
            decreases self.pending@.len() - k,
        {
            let ghost pre = m.pending.subrange(0, k as int);
            let b = band_index_for(self.pending[k], mid);
            self.bump(b, 0);
            proof {
                let post = m.pending.subrange(0, k + 1);
                assert(post.drop_last() =~= pre);
                assert(post.last() == m.pending[k as int]);
                lemma_bump_cancels(m.counts, pre, mid);
                lemma_sum_all_bump(bump_cancels(m.counts, pre, mid), b as int, 0);
            }
            k = k + 1;
        }
        self.pending.clear();
        proof {
            assert(m.pending.subrange(0, m.pending.len() as int) =~= m.pending);
            lemma_bump_cancels(m.counts, m.pending, mid);
            let r = attribute_side(m, mid);
            assert forall|a: int| 0 <= a < r.alive.len() implies band_ok(#[trigger] r.alive[a]) by {
                assert(band_ok(m.alive[a]));
            }
            assert(alive_prices(r.alive) =~= alive_prices(m.alive));
            assert(self.pending@ =~= Seq::<i64>::empty());
        }
    }

    /// Every alive level ends with fate `kind` (1 = frozen, 2 = censored) in its band.
    fn end_alive(&mut self, kind: u8, Ghost(m): Ghost<SideModel>)
        requires
            old(self).wf(m),
            m.births < u64::MAX,
            kind == 1 || kind == 2,
        ensures
            final(self).wf(SideModel { alive: Seq::empty(), counts: bump_ends(m.counts, m.alive, kind as int), ..m }),
    {
        proof {
            lemma_sum_all_nonneg(m.counts);
        }
        let mut j: usize = 0;
        while j < self.states.len()
            invariant
                j <= self.states@.len(),
                self.states@ == m.alive,
                model_ok(m),
                m.births < u64::MAX,
                kind == 1 || kind == 2,
                sum_all(m.counts) >= 0,
                self.counts@.len() == N_BANDS,
                counts_view(self.counts@) == bump_ends(m.counts, m.alive.subrange(0, j as int), kind as int),
                sum_all(counts_view(self.counts@)) == sum_all(m.counts) + j,
                self.book@ == m.book,
                self.pending@ == m.pending,
                self.book_ok(),
            decreases self.states@.len() - j,
        {
            let ghost pre = m.alive.subrange(0, j as int);
            let b = match self.states[j].1 {
                Some(b) => b,
                None => 0,
            };
            proof {
                assert(band_ok(m.alive[j as int]));
                assert forall|q: int| 0 <= q < pre.len() implies band_ok(#[trigger] pre[q]) by {
                    assert(pre[q] == m.alive[q]);
                }
                lemma_bump_ends(m.counts, pre, kind as int);
            }
            self.bump(b, kind);
            proof {
                let post = m.alive.subrange(0, j + 1);
                assert(post.drop_last() =~= pre);
                assert(post.last() == m.alive[j as int]);
                lemma_sum_all_bump(bump_ends(m.counts, pre, kind as int), b as int, kind as int);
            }
            j = j + 1;
        }
        self.states.clear();
        self.alive_set.clear();
        self.fresh = 0;
        proof {
            assert(m.alive.subrange(0, m.alive.len() as int) =~= m.alive);
            lemma_bump_ends(m.counts, m.alive, kind as int);
            assert(alive_prices(self.states@) =~= Seq::<i64>::empty());
        }
    }

    /// Lives still pending count as cancelled in the first band.
    fn flush_pending(&mut self, Ghost(m): Ghost<SideModel>)
        requires
            old(self).wf(m),
            m.births < u64::MAX,
        ensures
            final(self).wf(flush_side(m)),
    {
        proof {
            lemma_view_nonneg(self.counts@);
            lemma_tally_le_sum(m.counts, 0);
        }
        let n = self.pending.len() as u64;
        let (c, f, ce) = self.counts[0];
        let v: Counts = (c + n, f, ce);
        self.counts.set(0, v);
        self.pending.clear();
        proof {
            let t = m.counts[0];
            assert(counts_view(self.counts@) =~= m.counts.update(0, (t.0 + m.pending.len(), t.1, t.2)));
            lemma_sum_all_update(m.counts, 0, (t.0 + m.pending.len(), t.1, t.2));
            assert(self.pending@ =~= Seq::<i64>::empty());
        }
    }

    fn best_bid(&self) -> (r: Option<i64>)
        ensures
            r == (if self.book@.len() == 0 { None } else { Some(seq_max(self.book@)) }),
    {
        if self.book.len() == 0 {
            return None;
        }
        let mut best = self.book[0];
        let mut j: usize = 1;
        assert(self.book@.subrange(0, 1).len() == 1);
        while j < self.book.len()
            invariant
                1 <= j <= self.book@.len(),
                best == seq_max(self.book@.subrange(0, j as int)),
            decreases self.book@.len() - j,
        {
            let ghost pre = self.book@.subrange(0, j as int);
            let ghost post = self.book@.subrange(0, j + 1);
            assert(post.drop_last() =~= pre);
            assert(post.last() == self.book@[j as int]);
            if self.book[j] > best {
                best = self.book[j];
            }
            j = j + 1;
        }
        assert(self.book@.subrange(0, self.book@.len() as int) =~= self.book@);
        Some(best)
    }

    fn best_ask(&self) -> (r: Option<i64>)
        ensures
            r == (if self.book@.len() == 0 { None } else { Some(seq_min(self.book@)) }),
    {
        if self.book.len() == 0 {
            return None;
        }
        let mut best = self.book[0];
        let mut j: usize = 1;
        assert(self.book@.subrange(0, 1).len() == 1);
        while j < self.book.len()
            invariant
                1 <= j <= self.book@.len(),
                best == seq_min(self.book@.subrange(0, j as int)),
            decreases self.book@.len() - j,
        {
            let ghost pre = self.book@.subrange(0, j as int);
            let ghost post = self.book@.subrange(0, j + 1);
            assert(post.drop_last() =~= pre);
            assert(post.last() == self.book@[j as int]);
            if self.book[j] < best {
                best = self.book[j];
            }
            j = j + 1;
        }
        assert(self.book@.subrange(0, self.book@.len() as int) =~= self.book@);
        Some(best)
    }

    /// The seven band reports of this side, from its tallies.
    fn side_bands(&self, side: Side) -> (v: Vec<BandReport>)
        requires
            self.counts@.len() == N_BANDS,
            sum_all(counts_view(self.counts@)) < u64::MAX,
        ensures
            v@.len() == N_BANDS,
            forall|i: int| 0 <= i < N_BANDS ==> band_matches(#[trigger] v@[i], side, i, counts_view(self.counts@)[i]),
            sum_born(v@) == sum_all(counts_view(self.counts@)),
    {
        let ghost cv = counts_view(self.counts@);
        proof {
            lemma_view_nonneg(self.counts@);
        }
        let mut v: Vec<BandReport> = Vec::new();
        let mut k: usize = 0;
        while k < N_BANDS
            invariant
                k <= N_BANDS,
                self.counts@.len() == N_BANDS,
                cv == counts_view(self.counts@),
                tallies_nonneg(cv),
                sum_all(cv) < u64::MAX,
                v@.len() == k,
                forall|i: int| 0 <= i < k ==> band_matches(#[trigger] v@[i], side, i, cv[i]),
                sum_born(v@) == sum_all(cv.subrange(0, k as int)),
            decreases N_BANDS - k,
        {
            let (c, f, ce) = self.counts[k];
            proof {
                lemma_tally_le_sum(cv, k as int);
            }
            let b = BandReport {
                side,
                lo_bps: band_lo_bps(k),
                hi_bps: band_hi_bps(k),
                lives_born: c + f + ce,
                lives_cancelled: c,
                lives_frozen: f,
                lives_censored: ce,
            };
            let ghost before = v@;
            v.push(b);
            proof {
                assert(v@.drop_last() =~= before);
                assert(cv.subrange(0, k + 1).drop_last() =~= cv.subrange(0, k as int));
                assert forall|i: int| 0 <= i < k + 1 implies band_matches(#[trigger] v@[i], side, i, cv[i]) by {
                    if i < k {
                        assert(v@[i] == before[i]);
                    }
                }
            }
            k = k + 1;
        }
        assert(cv.subrange(0, N_BANDS as int) =~= cv);
        v
    }
}

/// Band index of a price's distance from `mid` (see `band_of`).
fn band_index_for(price: i64, mid: i64) -> (r: usize)
    ensures
        r == band_of(price, mid),
        r < N_BANDS,
{
    if mid <= 0 {
        return 0;
    }
    let diff: i128 = price as i128 - mid as i128;
    let prod: i128 = diff * 10_000;
    let sat: i128 = if prod > i64::MAX as i128 {
        i64::MAX as i128
    } else if prod < i64::MIN as i128 {
        i64::MIN as i128
    } else {
        prod
    };
    let bps: i128 = sat / (mid as i128);
    let abs: i128 = if bps < 0 {
        -bps
    } else {
        bps
    };
    if abs < 150 {
        0
    } else if abs < 300 {
        1
    } else if abs < 500 {
        2
    } else if abs < 800 {
        3
    } else if abs < 1500 {
        4
    } else if abs < 3000 {
        5
    } else {
        6
    }
}

/// Mid of the running raw books (see `model_mid`).
fn compute_mid(bids: &SideBook, asks: &SideBook) -> (r: Option<i64>)
    requires
        bids.book_ok(),
        asks.book_ok(),
    ensures
        r == model_mid(bids.book@, asks.book@),
{
    if bids.book.len() > 0 && asks.book.len() > 0 {
        let s: i128 = bids.high as i128 + asks.low as i128;
        let m: i128 = s / 2;
        Some(m as i64)
    } else {
        None
    }
}

/// Exec form of the continuity rule.
fn is_gap(prev: Option<u64>, t: &DeltaTick) -> (r: bool)
    ensures
        r == tick_is_gap(prev, *t),
{
    match prev {
        None => false,
        Some(p) => match t.prev_final_update_id {
            None => t.first_update_id != p.saturating_add(1),
            Some(pu) => pu != p,
        },
    }
}

proof fn lemma_total_levels_prefix(s: Seq<DeltaTick>, i: int)
    requires
        0 <= i <= s.len(),
    ensures
        total_levels(s.subrange(0, i)) <= total_levels(s),
    decreases s.len() - i,
{
    if i < s.len() {
        lemma_total_levels_prefix(s, i + 1);
        assert(s.subrange(0, i + 1).drop_last() =~= s.subrange(0, i));
    } else {
        assert(s.subrange(0, i) =~= s);
    }
}

/// Analyze the lifetime of every level in the delta stream.
///
/// The report has one entry per side and band, Buy bands first, each side by ascending
/// lower bound; each band carries the cancelled, frozen and censored lives that the stream
/// model gives it at the end of the window (`final_side` of `run_model`), and its born
/// count is their sum. Every life born is counted in exactly one band. The gap count is
/// the model's.
pub fn analyze(ticks: &Vec<DeltaTick>) -> (r: LifetimeReport)
    requires
        total_levels(ticks@) < u64::MAX,
    ensures
        r.bands@.len() == 2 * N_BANDS,
        forall|i: int| 0 <= i < N_BANDS ==> band_matches(#[trigger] r.bands@[i], Side::Buy, i,
            final_side(run_model(ticks@).bids).counts[i]),
        forall|i: int| N_BANDS <= i < 2 * N_BANDS ==> band_matches(#[trigger] r.bands@[i], Side::Sell, i - N_BANDS,
            final_side(run_model(ticks@).asks).counts[i - N_BANDS]),
        r.gaps == run_model(ticks@).gaps,
        sum_born(r.bands@.subrange(0, 7)) == run_model(ticks@).bids.births,
        sum_born(r.bands@.subrange(7, 14)) == run_model(ticks@).asks.births,
{
    let mut bids = SideBook::new();
    let mut asks = SideBook::new();
    let mut prev: Option<u64> = None;
    let mut gaps: u64 = 0;
    let mut i: usize = 0;
    while i < ticks.len()
        invariant
            i <= ticks@.len(),
            total_levels(ticks@) < u64::MAX,
            bids.wf(run_model(ticks@.subrange(0, i as int)).bids),
            asks.wf(run_model(ticks@.subrange(0, i as int)).asks),
            prev == run_model(ticks@.subrange(0, i as int)).prev_final,
            gaps == run_model(ticks@.subrange(0, i as int)).gaps,
            gaps <= i,
            run_model(ticks@.subrange(0, i as int)).bids.births + run_model(
                ticks@.subrange(0, i as int),
            ).asks.births <= total_levels(ticks@.subrange(0, i as int)),
        decreases ticks@.len() - i,
    {
        let ghost m = run_model(ticks@.subrange(0, i as int));
        let t = &ticks[i];
        proof {
            assert(ticks@.subrange(0, i + 1).drop_last() =~= ticks@.subrange(0, i as int));
            assert(ticks@.subrange(0, i + 1).last() == ticks@[i as int]);
            lemma_total_levels_prefix(ticks@, i + 1);
        }
        if is_gap(prev, t) {
            gaps = gaps + 1;
            bids.end_alive(2, Ghost(m.bids));
            asks.end_alive(2, Ghost(m.asks));
        } else {
            bids.apply_delta(&t.bids, Ghost(m.bids));
            asks.apply_delta(&t.asks, Ghost(m.asks));
            let ghost b = apply_levels(m.bids, t.bids@);
            let ghost a = apply_levels(m.asks, t.asks@);
            match compute_mid(&bids, &asks) {
                Some(mid) => {
                    bids.attribute(mid, Ghost(b));
                    asks.attribute(mid, Ghost(a));
                },
                None => {},
            }
            prev = Some(t.final_update_id);
        }
        i = i + 1;
    }
    assert(ticks@.subrange(0, ticks@.len() as int) =~= ticks@);
    let ghost m = run_model(ticks@);
    bids.end_alive(1, Ghost(m.bids));
    asks.end_alive(1, Ghost(m.asks));
    bids.flush_pending(Ghost(freeze_side(m.bids)));
    asks.flush_pending(Ghost(freeze_side(m.asks)));
    let mut bands = bids.side_bands(Side::Buy);
    let mut ask_bands = asks.side_bands(Side::Sell);
    let ghost bid_v = bands@;
    let ghost ask_v = ask_bands@;
    bands.append(&mut ask_bands);
    proof {
        assert(bands@.subrange(0, 7) =~= bid_v);
        assert(bands@.subrange(7, 14) =~= ask_v);
        assert forall|i: int| 0 <= i < N_BANDS implies band_matches(#[trigger] bands@[i], Side::Buy, i,
            final_side(m.bids).counts[i]) by {
            assert(bands@[i] == bid_v[i]);
        }
        assert forall|i: int| N_BANDS <= i < 2 * N_BANDS implies band_matches(#[trigger] bands@[i], Side::Sell,
            i - N_BANDS, final_side(m.asks).counts[i - N_BANDS]) by {
            assert(bands@[i] == ask_v[i - 7]);
        }
    }
    LifetimeReport { bands, gaps }
}

impl BandReport {
    /// The share of cancelled lives among the lives that were cancelled or stayed alive
    /// to the end of the window, as `(cancelled, cancelled + frozen)`
    /// (the sum saturating): censored lives are left out of the denominator. `None` when the
    /// denominator is 0 (the band is empty or censored only).
    pub fn cancel_ratio(&self) -> (r: Option<(u64, u64)>)
        ensures
            self.lives_cancelled as int + self.lives_frozen as int == 0 <==> r is None,
            r matches Some(p) ==> p.0 == self.lives_cancelled && p.1 == (if self.lives_cancelled as int
                + self.lives_frozen as int > u64::MAX { u64::MAX as int } else { self.lives_cancelled as int
                + self.lives_frozen as int }),
    {
        let denom: u64 = if self.lives_cancelled > u64::MAX - self.lives_frozen {
            u64::MAX
        } else {
            self.lives_cancelled + self.lives_frozen
        };
        if denom == 0 {
            None
        } else {
            Some((self.lives_cancelled, denom))
        }
    }
}

impl LifetimeReport {
    /// The first band of the report with this side and lower bound.
    pub fn band(&self, side: Side, lo_bps: i64) -> (r: Option<&BandReport>)
        ensures
            match r {
                Some(b) => exists|i: int|
                    0 <= i < self.bands@.len() && self.bands@[i] == *b && b.side == side
                        && b.lo_bps == lo_bps,
                None => forall|i: int|
                    0 <= i < self.bands@.len() ==> !(self.bands@[i].side == side
                        && self.bands@[i].lo_bps == lo_bps),
            },
    {
        let mut i: usize = 0;
        while i < self.bands.len()
            invariant
                i <= self.bands@.len(),
                forall|k: int|
                    0 <= k < i ==> !(self.bands@[k].side == side && self.bands@[k].lo_bps
                        == lo_bps),
            decreases self.bands@.len() - i,
        {
            if self.bands[i].side == side && self.bands[i].lo_bps == lo_bps {
                return Some(&self.bands[i]);
            }
            i = i + 1;
        }
        None
    }
}

} // verus!
