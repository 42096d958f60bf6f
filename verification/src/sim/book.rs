//! Visible order book of one instrument, rebuilt from full L2 snapshots: each side holds
//! its levels best first, one per price, each with a positive size.

use vstd::prelude::*;

use crate::market::{Level, Side};

verus! {

/// `a` is a better price than `b` on this side: higher for bids, lower for asks.
pub open spec fn better(a: i64, b: i64, side: Side) -> bool {
    match side {
        Side::Buy => a > b,
        Side::Sell => a < b,
    }
}

/// Executable form of `better`.
pub fn is_better(a: i64, b: i64, side: Side) -> (r: bool)
    ensures
        r == better(a, b, side),
{
    match side {
        Side::Buy => a > b,
        Side::Sell => a < b,
    }
}

/// Levels `(price, size)` strictly best first, every size positive.
pub open spec fn side_well_formed(s: Seq<(i64, i64)>, side: Side) -> bool {
    &&& forall|i: int, j: int| 0 <= i < j < s.len() ==> better(#[trigger] s[i].0, #[trigger] s[j].0, side)
    &&& forall|i: int| 0 <= i < s.len() ==> (#[trigger] s[i]).1 > 0
}

/// The levels hold exactly the entries of the map `price → size`.
pub open spec fn side_matches(s: Seq<(i64, i64)>, m: Map<i64, i64>) -> bool {
    &&& forall|i: int| 0 <= i < s.len() ==> m.contains_key((#[trigger] s[i]).0) && m[s[i].0] == s[i].1
    &&& forall|p: i64| m.contains_key(p) ==> exists|i: int| 0 <= i < s.len() && (#[trigger] s[i]).0 == p
}

/// What a snapshot's levels say, read in order: a level with a positive size sets the size
/// at its price, a level with size zero or less removes the price.
pub open spec fn snapshot_map(levels: Seq<Level>) -> Map<i64, i64>
    decreases levels.len(),
{
    if levels.len() == 0 {
        Map::empty()
    } else {
        let m = snapshot_map(levels.drop_last());
        let l = levels.last();
        if l.size > 0 {
            m.insert(l.price, l.size)
        } else {
            m.remove(l.price)
        }
    }
}

/// The one best-first listing of the map's levels on a side.
pub open spec fn canonical_side(m: Map<i64, i64>, side: Side) -> Seq<(i64, i64)> {
    choose|s: Seq<(i64, i64)>| side_well_formed(s, side) && side_matches(s, m)
}

/// A side as a snapshot's levels leave it.
pub open spec fn snapshot_side(levels: Seq<Level>, side: Side) -> Seq<(i64, i64)> {
    canonical_side(snapshot_map(levels), side)
}

/// Two best-first listings of the same map are the same.
pub proof fn lemma_side_unique(s1: Seq<(i64, i64)>, s2: Seq<(i64, i64)>, side: Side, m: Map<i64, i64>)
    requires
        side_well_formed(s1, side),
        side_well_formed(s2, side),
        side_matches(s1, m),
        side_matches(s2, m),
    ensures
        s1 == s2,
    decreases s1.len(),
{
    if s1.len() == 0 {
        if s2.len() > 0 {
            assert(m.contains_key(s2[0].0));
            let i = choose|i: int| 0 <= i < s1.len() && (#[trigger] s1[i]).0 == s2[0].0;
        }
        assert(s1 =~= s2);
    } else {
        assert(m.contains_key(s1[0].0));
        let j = choose|j: int| 0 <= j < s2.len() && (#[trigger] s2[j]).0 == s1[0].0;
        assert(m.contains_key(s2[0].0));
        let i = choose|i: int| 0 <= i < s1.len() && (#[trigger] s1[i]).0 == s2[0].0;
        if i > 0 && j > 0 {
            assert(better(s1[0].0, s1[i].0, side));
            assert(better(s2[0].0, s2[j].0, side));
        } else if i > 0 {
            assert(s2[0].0 == s1[0].0);
            assert(better(s1[0].0, s1[i].0, side));
        } else if j > 0 {
            assert(s1[0].0 == s2[0].0);
            assert(better(s2[0].0, s2[j].0, side));
        }
        assert(s1[0].0 == s2[0].0);
        assert(s1[0] == s2[0]);
        let k = s1[0].0;
        let m2 = m.remove(k);
        let t1 = s1.drop_first();
        let t2 = s2.drop_first();
        lemma_tail_matches(s1, side, m);
        lemma_tail_matches(s2, side, m);
        lemma_side_unique(t1, t2, side, m2);
        assert(s1 =~= seq![s1[0]] + t1);
        assert(s2 =~= seq![s2[0]] + t2);
    }
}

proof fn lemma_tail_matches(s: Seq<(i64, i64)>, side: Side, m: Map<i64, i64>)
    requires
        s.len() > 0,
        side_well_formed(s, side),
        side_matches(s, m),
    ensures
        side_well_formed(s.drop_first(), side),
        side_matches(s.drop_first(), m.remove(s[0].0)),
{
    let t = s.drop_first();
    let k = s[0].0;
    let m2 = m.remove(k);
    assert forall|a: int, b: int| 0 <= a < b < t.len() implies better(#[trigger] t[a].0, #[trigger] t[b].0, side) by {
        assert(t[a] == s[a + 1]);
        assert(t[b] == s[b + 1]);
    }
    assert forall|a: int| 0 <= a < t.len() implies (#[trigger] t[a]).1 > 0 by {
        assert(t[a] == s[a + 1]);
    }
    assert forall|a: int| 0 <= a < t.len() implies m2.contains_key((#[trigger] t[a]).0) && m2[t[a].0] == t[a].1 by {
        assert(t[a] == s[a + 1]);
        assert(better(s[0].0, s[a + 1].0, side));
    }
    assert forall|p: i64| m2.contains_key(p) implies exists|a: int| 0 <= a < t.len() && (#[trigger] t[a]).0 == p by {
        let i = choose|i: int| 0 <= i < s.len() && (#[trigger] s[i]).0 == p;
        assert(i != 0);
        assert(t[i - 1] == s[i]);
    }
}

/// A well-formed listing of a map is its canonical listing.
pub proof fn lemma_canonical(s: Seq<(i64, i64)>, side: Side, m: Map<i64, i64>)
    requires
        side_well_formed(s, side),
        side_matches(s, m),
    ensures
        canonical_side(m, side) == s,
{
    let c = canonical_side(m, side);
    assert(side_well_formed(c, side) && side_matches(c, m));
    lemma_side_unique(c, s, side, m);
}

/// Size visible at `price` on a side (0 when the price has no level).
pub open spec fn size_at_spec(s: Seq<(i64, i64)>, price: i64) -> i64 {
    if exists|i: int| 0 <= i < s.len() && s[i].0 == price {
        s[choose|i: int| 0 <= i < s.len() && s[i].0 == price].1
    } else {
        0
    }
}

/// The level lies within the bound: at or above it for bids, at or below it for asks.
pub open spec fn within_bound(price: i64, side: Side, bound: int) -> bool {
    match side {
        Side::Buy => price >= bound,
        Side::Sell => price <= bound,
    }
}

/// Total size of the side's levels within the bound.
pub open spec fn size_within(s: Seq<(i64, i64)>, side: Side, bound: int) -> int
    decreases s.len(),
{
    if s.len() == 0 {
        0
    } else {
        size_within(s.drop_last(), side, bound) + if within_bound(s.last().0, side, bound) {
            s.last().1 as int
        } else {
            0
        }
    }
}

/// Price bound of a band of `band_e8` (×1e8 of the mid) around `mid`: below it for bids,
/// above it for asks.
pub open spec fn band_bound(mid: int, side: Side, band_e8: i64) -> int {
    let offset = crate::bucket::trunc_div(mid * band_e8, 100_000_000);
    match side {
        Side::Buy => mid - offset,
        Side::Sell => mid + offset,
    }
}

/// Mid of a book given by its sides: the mean of the best bid and the best ask.
pub open spec fn view_mid(bids: Seq<(i64, i64)>, asks: Seq<(i64, i64)>) -> Option<int> {
    if bids.len() > 0 && asks.len() > 0 {
        Some(crate::bucket::trunc_div(bids[0].0 + asks[0].0, 2))
    } else {
        None
    }
}

/// Depth of a side within a band around the mid of a book given by its sides (see
/// `OrderBook::depth_within_e8`).
pub open spec fn view_depth(bids: Seq<(i64, i64)>, asks: Seq<(i64, i64)>, side: Side, band_e8: i64) -> i64 {
    match view_mid(bids, asks) {
        None => 0,
        Some(mid) => {
            let levels = match side {
                Side::Buy => bids,
                Side::Sell => asks,
            };
            let t = size_within(levels, side, band_bound(mid, side, band_e8));
            if t > i64::MAX { i64::MAX } else { t as i64 }
        },
    }
}

/// Total size of the levels.
pub open spec fn sizes_total(s: Seq<(i64, i64)>) -> int
    decreases s.len(),
{
    if s.len() == 0 {
        0
    } else {
        sizes_total(s.drop_last()) + s.last().1
    }
}

/// Total size of the `n` best levels (all of them when there are fewer), saturated at
/// `i64::MAX`.
pub open spec fn top_n_total(s: Seq<(i64, i64)>, n: int) -> i64 {
    let k = if n < s.len() { n } else { s.len() as int };
    let t = sizes_total(s.subrange(0, k));
    if t > i64::MAX { i64::MAX } else { t as i64 }
}

/// Reconstructed book of one instrument.
#[derive(Clone, Debug)]
pub struct OrderBook {
    bids: Vec<(i64, i64)>,
    asks: Vec<(i64, i64)>,
}

impl OrderBook {
    /// The levels of a side, best first.
    pub closed spec fn side(&self, side: Side) -> Seq<(i64, i64)> {
        match side {
            Side::Buy => self.bids@,
            Side::Sell => self.asks@,
        }
    }

    pub open spec fn wf(&self) -> bool {
        &&& side_well_formed(self.side(Side::Buy), Side::Buy)
        &&& side_well_formed(self.side(Side::Sell), Side::Sell)
    }

    /// An empty book.
    pub fn new() -> (r: Self)
        ensures
            r.wf(),
            r.side(Side::Buy).len() == 0,
            r.side(Side::Sell).len() == 0,
    {
        OrderBook { bids: Vec::new(), asks: Vec::new() }
    }

    /// Replace the book by a full snapshot: each side becomes the snapshot's levels for that
    /// side (later levels at a price overriding earlier ones, sizes ≤ 0 removing the price),
    /// ordered best first.
    pub fn apply_snapshot(&mut self, bids: &[Level], asks: &[Level])
        ensures
            final(self).wf(),
            final(self).side(Side::Buy) == snapshot_side(bids@, Side::Buy),
            final(self).side(Side::Sell) == snapshot_side(asks@, Side::Sell),
    {
        self.bids = build_side(bids, Side::Buy);
        self.asks = build_side(asks, Side::Sell);
        proof {
            lemma_canonical(self.bids@, Side::Buy, snapshot_map(bids@));
            lemma_canonical(self.asks@, Side::Sell, snapshot_map(asks@));
        }
    }

    /// Visible size at `price` on `side` (0 when there is no such level).
    pub fn size_at(&self, side: Side, price: i64) -> (r: i64)
        requires
            self.wf(),
        ensures
            r == size_at_spec(self.side(side), price),
    {
        let s = match side {
            Side::Buy => &self.bids,
            Side::Sell => &self.asks,
        };
        let mut i: usize = 0;
        while i < s.len()
            invariant
                i <= s@.len(),
                s@ == self.side(side),
                side_well_formed(s@, side),
                forall|j: int| 0 <= j < i ==> s@[j].0 != price,
            decreases s@.len() - i,
        {
            if s[i].0 == price {
                proof {
                    let k = choose|k: int| 0 <= k < s@.len() && s@[k].0 == price;
                    if k != i as int {
                        if k < i {
                            assert(better(s@[k].0, s@[i as int].0, side));
                        } else {
                            assert(better(s@[i as int].0, s@[k].0, side));
                        }
                    }
                }
                return s[i].1;
            }
            i = i + 1;
        }
        0
    }

    /// Mid price: the mean of the best bid and the best ask (Rust division), when both
    /// sides have a level.
    pub fn mid(&self) -> (r: Option<i64>)
        ensures
            self.side(Side::Buy).len() == 0 || self.side(Side::Sell).len() == 0 ==> r is None,
            self.side(Side::Buy).len() > 0 && self.side(Side::Sell).len() > 0 ==> r == Some(
                crate::bucket::trunc_div(self.side(Side::Buy)[0].0 + self.side(Side::Sell)[0].0, 2) as i64,
            ),
    {
        if self.bids.len() == 0 || self.asks.len() == 0 {
            return None;
        }
        let sum: i128 = self.bids[0].0 as i128 + self.asks[0].0 as i128;
        let m: i128 = sum / 2;
        Some(m as i64)
    }

    /// Mid price in the model (see `mid`).
    pub open spec fn mid_spec(&self) -> Option<int> {
        view_mid(self.side(Side::Buy), self.side(Side::Sell))
    }

    /// Depth of a side within a band (see `depth_within_e8`).
    pub open spec fn depth_within_spec(&self, side: Side, band_e8: i64) -> i64 {
        view_depth(self.side(Side::Buy), self.side(Side::Sell), side, band_e8)
    }

    /// Depth of a side within a band around the mid: the total size of the side's levels
    /// no further from the mid than `band_e8` ×1e8 of it (`mid · band_e8 / 1e8` with Rust
    /// division), saturated at `i64::MAX`; 0 without a mid.
    pub fn depth_within_e8(&self, side: Side, band_e8: i64) -> (r: i64)
        requires
            self.wf(),
        ensures
            r == self.depth_within_spec(side, band_e8),
    {
        if self.bids.len() == 0 || self.asks.len() == 0 {
            return 0;
        }
        let mid: i128 = (self.bids[0].0 as i128 + self.asks[0].0 as i128) / 2;
        assert(-0x8000_0000_0000_0000 <= mid <= 0x8000_0000_0000_0000);
        assert(-0x8000_0000_0000_0000 * 0x8000_0000_0000_0000 <= mid * band_e8 <= 0x8000_0000_0000_0000 * 0x8000_0000_0000_0000) by (nonlinear_arith)
            requires -0x8000_0000_0000_0000 <= mid <= 0x8000_0000_0000_0000, i64::MIN <= band_e8 <= i64::MAX;
        let offset: i128 = mid * (band_e8 as i128) / 100_000_000;
        let bound: i128 = match side {
            Side::Buy => mid - offset,
            Side::Sell => mid + offset,
        };
        let s = match side {
            Side::Buy => &self.bids,
            Side::Sell => &self.asks,
        };
        let mut total: i128 = 0;
        let mut i: usize = 0;
        while i < s.len()
            invariant
                i <= s@.len(),
                s@ == self.side(side),
                side_well_formed(s@, side),
                total == size_within(s@.subrange(0, i as int), side, bound as int),
                0 <= total <= i * 0x8000_0000_0000_0000,
            decreases s@.len() - i,
        {
            let ghost pre = s@.subrange(0, i as int + 1);
            assert(pre.drop_last() =~= s@.subrange(0, i as int));
            assert(pre.last() == s@[i as int]);
            let (price, size) = s[i];
            assert(size > 0);
            let inside = match side {
                Side::Buy => price as i128 >= bound,
                Side::Sell => price as i128 <= bound,
            };
            if inside {
                assert(total + size <= (i + 1) * 0x8000_0000_0000_0000) by (nonlinear_arith)
                    requires total <= i * 0x8000_0000_0000_0000, size <= 0x8000_0000_0000_0000;
                assert((i + 1) * 0x8000_0000_0000_0000 <= 0x1_0000_0000_0000_0000 * 0x8000_0000_0000_0000) by (nonlinear_arith)
                    requires i < s@.len(), s@.len() <= usize::MAX;
                total = total + size as i128;
            }
            i = i + 1;
        }
        assert(s@.subrange(0, s@.len() as int) =~= s@);
        if total > i64::MAX as i128 {
            i64::MAX
        } else {
            total as i64
        }
    }

    /// Depth of the `n` best levels of a side: their total size, saturated at `i64::MAX`.
    pub fn top_n_depth(&self, side: Side, n: u64) -> (r: i64)
        requires
            self.wf(),
        ensures
            r == top_n_total(self.side(side), n as int),
    {
        let s = match side {
            Side::Buy => &self.bids,
            Side::Sell => &self.asks,
        };
        let k: usize = if (n as u128) < (s.len() as u128) { n as usize } else { s.len() };
        let mut total: i128 = 0;
        let mut i: usize = 0;
        while i < k
            invariant
                i <= k <= s@.len(),
                s@.len() <= usize::MAX,
                s@ == self.side(side),
                side_well_formed(s@, side),
                total == sizes_total(s@.subrange(0, i as int)),
                0 <= total <= i * 0x8000_0000_0000_0000,
            decreases k - i,
        {
            let ghost pre = s@.subrange(0, i as int + 1);
            assert(pre.drop_last() =~= s@.subrange(0, i as int));
            assert(pre.last() == s@[i as int]);
            let size = s[i].1;
            assert(size > 0);
            assert(total + size <= (i + 1) * 0x8000_0000_0000_0000) by (nonlinear_arith)
                requires total <= i * 0x8000_0000_0000_0000, size <= 0x8000_0000_0000_0000;
            assert((i + 1) * 0x8000_0000_0000_0000 <= 0x1_0000_0000_0000_0000 * 0x8000_0000_0000_0000) by (nonlinear_arith)
                requires i < s@.len(), s@.len() <= usize::MAX;
            total = total + size as i128;
            i = i + 1;
        }
        if total > i64::MAX as i128 {
            i64::MAX
        } else {
            total as i64
        }
    }

    /// The levels of `side`, best first.
    pub fn levels(&self, side: Side) -> (r: Vec<(i64, i64)>)
        ensures
            r@ == self.side(side),
    {
        let s = match side {
            Side::Buy => &self.bids,
            Side::Sell => &self.asks,
        };
        let mut out: Vec<(i64, i64)> = Vec::new();
        let mut i: usize = 0;
        while i < s.len()
            invariant
                i <= s@.len(),
                s@ == self.side(side),
                out@ == s@.subrange(0, i as int),
            decreases s@.len() - i,
        {
            out.push(s[i]);
            i = i + 1;
        }
        assert(s@.subrange(0, s@.len() as int) =~= s@);
        out
    }
}

fn build_side(levels: &[Level], side: Side) -> (r: Vec<(i64, i64)>)
    ensures
        side_well_formed(r@, side),
        side_matches(r@, snapshot_map(levels@)),
{
    let mut s: Vec<(i64, i64)> = Vec::new();
    let mut k: usize = 0;
    while k < levels.len()
        invariant
            k <= levels@.len(),
            side_well_formed(s@, side),
            side_matches(s@, snapshot_map(levels@.subrange(0, k as int))),
        decreases levels@.len() - k,
    {
        let l = levels[k];
        proof {
            let pre = levels@.subrange(0, k as int + 1);
            assert(pre.drop_last() =~= levels@.subrange(0, k as int));
            assert(pre.last() == l);
        }
        set_level(&mut s, side, l.price, l.size, Ghost(snapshot_map(levels@.subrange(0, k as int))));
        k = k + 1;
    }
    assert(levels@.subrange(0, levels@.len() as int) =~= levels@);
    s
}

/// Set the size at `price` (a size ≤ 0 removes the level), keeping the side ordered.
fn set_level(s: &mut Vec<(i64, i64)>, side: Side, price: i64, size: i64, Ghost(m): Ghost<Map<i64, i64>>)
    requires
        side_well_formed(old(s)@, side),
        side_matches(old(s)@, m),
    ensures
        side_well_formed(final(s)@, side),
        size > 0 ==> side_matches(final(s)@, m.insert(price, size)),
        size <= 0 ==> side_matches(final(s)@, m.remove(price)),
{
    let ghost s0 = s@;
    let mut i: usize = 0;
    while i < s.len() && is_better(s[i].0, price, side)
        invariant
            i <= s@.len(),
            s@ == s0,
            forall|j: int| 0 <= j < i ==> better(#[trigger] s@[j].0, price, side),
        decreases s@.len() - i,
    {
        i = i + 1;
    }
    // Every level from `i` on is at `price` or worse.
    assert forall|j: int| i <= j < s0.len() implies s0[j].0 == price || better(price, #[trigger] s0[j].0, side) by {
        if j > i as int {
            assert(better(s0[i as int].0, s0[j].0, side));
        }
    }
    if i < s.len() && s[i].0 == price {
        if size > 0 {
            s.set(i, (price, size));
            proof {
                let m2 = m.insert(price, size);
                assert forall|p: i64| m2.contains_key(p) implies exists|t: int| 0 <= t < s@.len() && (#[trigger] s@[t]).0 == p by {
                    if p == price {
                        assert(s@[i as int].0 == p);
                    } else {
                        let t = choose|t: int| 0 <= t < s0.len() && (#[trigger] s0[t]).0 == p;
                        assert(s@[t].0 == p);
                    }
                }
                assert forall|t: int| 0 <= t < s@.len() implies m2.contains_key((#[trigger] s@[t]).0) && m2[s@[t].0] == s@[t].1 by {
                    if t != i as int {
                        assert(s@[t] == s0[t]);
                        if t < i as int {
                            assert(better(s0[t].0, s0[i as int].0, side));
                        } else {
                            assert(better(s0[i as int].0, s0[t].0, side));
                        }
                    }
                }
            }
        } else {
            s.remove(i);
            proof {
                let m2 = m.remove(price);
                assert forall|p: i64| m2.contains_key(p) implies exists|t: int| 0 <= t < s@.len() && (#[trigger] s@[t]).0 == p by {
                    let t = choose|t: int| 0 <= t < s0.len() && (#[trigger] s0[t]).0 == p;
                    if t < i as int {
                        assert(s@[t].0 == p);
                    } else {
                        assert(t != i as int);
                        assert(s@[t - 1].0 == p);
                    }
                }
                assert forall|t: int| 0 <= t < s@.len() implies m2.contains_key((#[trigger] s@[t]).0) && m2[s@[t].0] == s@[t].1 by {
                    if t < i as int {
                        assert(s@[t] == s0[t]);
                        assert(better(s0[t].0, s0[i as int].0, side));
                    } else {
                        assert(s@[t] == s0[t + 1]);
                        assert(better(s0[i as int].0, s0[t + 1].0, side));
                    }
                }
                assert forall|a: int, b: int| 0 <= a < b < s@.len() implies better(#[trigger] s@[a].0, #[trigger] s@[b].0, side) by {
                    let a0 = if a < i as int { a } else { a + 1 };
                    let b0 = if b < i as int { b } else { b + 1 };
                    assert(s@[a] == s0[a0]);
                    assert(s@[b] == s0[b0]);
                    assert(better(s0[a0].0, s0[b0].0, side));
                }
                assert forall|t: int| 0 <= t < s@.len() implies (#[trigger] s@[t]).1 > 0 by {
                    let t0 = if t < i as int { t } else { t + 1 };
                    assert(s@[t] == s0[t0]);
                }
            }
        }
    } else if size > 0 {
        s.insert(i, (price, size));
        proof {
            let m2 = m.insert(price, size);
            assert forall|p: i64| m2.contains_key(p) implies exists|t: int| 0 <= t < s@.len() && (#[trigger] s@[t]).0 == p by {
                if p == price {
                    assert(s@[i as int].0 == p);
                } else {
                    let t = choose|t: int| 0 <= t < s0.len() && (#[trigger] s0[t]).0 == p;
                    if t < i as int {
                        assert(s@[t].0 == p);
                    } else {
                        assert(s@[t + 1].0 == p);
                    }
                }
            }
            assert forall|t: int| 0 <= t < s@.len() implies m2.contains_key((#[trigger] s@[t]).0) && m2[s@[t].0] == s@[t].1 by {
                if t < i as int {
                    assert(s@[t] == s0[t]);
                } else if t > i as int {
                    assert(s@[t] == s0[t - 1]);
                }
            }
            assert forall|a: int, b: int| 0 <= a < b < s@.len() implies better(#[trigger] s@[a].0, #[trigger] s@[b].0, side) by {
                if a < i as int && b < i as int {
                    assert(better(s0[a].0, s0[b].0, side));
                } else if a < i as int && b == i as int {
                } else if a < i as int {
                    assert(s@[b] == s0[b - 1]);
                    assert(better(s0[a].0, s0[b - 1].0, side));
                } else if a == i as int {
                    assert(s@[b] == s0[b - 1]);
                } else {
                    assert(s@[a] == s0[a - 1]);
                    assert(s@[b] == s0[b - 1]);
                    assert(better(s0[a - 1].0, s0[b - 1].0, side));
                }
            }
            assert forall|t: int| 0 <= t < s@.len() implies (#[trigger] s@[t]).1 > 0 by {
                if t < i as int {
                    assert(s@[t] == s0[t]);
                } else if t > i as int {
                    assert(s@[t] == s0[t - 1]);
                }
            }
        }
    } else {
        proof {
            let m2 = m.remove(price);
            assert forall|t: int| 0 <= t < s@.len() implies m2.contains_key((#[trigger] s@[t]).0) && m2[s@[t].0] == s@[t].1 by {
                if t < i as int {
                    assert(better(s0[t].0, price, side));
                }
            }
            assert forall|p: i64| m2.contains_key(p) implies exists|t: int| 0 <= t < s@.len() && (#[trigger] s@[t]).0 == p by {
                let t = choose|t: int| 0 <= t < s0.len() && (#[trigger] s0[t]).0 == p;
                assert(s@[t].0 == p);
            }
        }
    }
}

/// Widening the bound to take in more prices never lowers the size within it.
proof fn lemma_size_within_grows(s: Seq<(i64, i64)>, side: Side, tight: int, loose: int)
    requires
        forall|i: int| 0 <= i < s.len() ==> (#[trigger] s[i]).1 >= 0,
        match side {
            Side::Buy => loose <= tight,
            Side::Sell => tight <= loose,
        },
    ensures
        0 <= size_within(s, side, tight) <= size_within(s, side, loose),
    decreases s.len(),
{
    if s.len() > 0 {
        let d = s.drop_last();
        assert forall|i: int| 0 <= i < d.len() implies (#[trigger] d[i]).1 >= 0 by {
            assert(d[i] == s[i]);
        }
        lemma_size_within_grows(d, side, tight, loose);
        assert(s.last() == s[s.len() - 1]);
    }
}

/// A deeper band includes a shallower one: on a book whose mid is not negative, the depth
/// of a side within a band never shrinks as the band widens.
pub proof fn law_depth_monotone_in_band(book: OrderBook, side: Side, narrow_e8: i64, wide_e8: i64)
    requires
        book.wf(),
        0 <= narrow_e8 <= wide_e8,
        forall|m: int| book.mid_spec() == Some(m) ==> m >= 0,
    ensures
        book.depth_within_spec(side, narrow_e8) <= book.depth_within_spec(side, wide_e8),
{
    let bids = book.side(Side::Buy);
    let asks = book.side(Side::Sell);
    if let Some(m) = view_mid(bids, asks) {
        assert(m >= 0);
        assert(m * narrow_e8 <= m * wide_e8) by (nonlinear_arith)
            requires m >= 0, narrow_e8 <= wide_e8;
        assert(0 <= m * narrow_e8) by (nonlinear_arith)
            requires m >= 0, narrow_e8 >= 0;
        vstd::arithmetic::div_mod::lemma_div_is_ordered(m * narrow_e8, m * wide_e8, 100_000_000);
        let levels = match side {
            Side::Buy => bids,
            Side::Sell => asks,
        };
        assert(side_well_formed(levels, side));
        let bn = band_bound(m, side, narrow_e8);
        let bw = band_bound(m, side, wide_e8);
        assert(crate::bucket::trunc_div(m * narrow_e8, 100_000_000) <= crate::bucket::trunc_div(m * wide_e8, 100_000_000));
        lemma_size_within_grows(levels, side, bn, bw);
    }
}

} // verus!
