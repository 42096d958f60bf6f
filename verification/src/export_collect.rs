//! Collecting a journal stream for the order-flow export: per instrument, its trades and its
//! book snapshots in stream order; instruments kept in a stable order (venue name, then
//! symbol) so that the output never depends on a hash map's iteration order.

use vstd::prelude::*;

use crate::export_build::{artifact_ok, build_artifact, export_inputs_fit, texts, InstrumentBucket, TradeRow};
use crate::export_rows::{venue_slug, ExportArtifact};
use crate::market::{Event, EventKind, Level, MdPayload, Side, Venue};
use crate::sim::book::{snapshot_side, OrderBook};

verus! {

/// Rank of a venue by its export name: `binance`, `hyperliquid`, `unknown`.
pub open spec fn venue_rank(v: Venue) -> int {
    match v {
        Venue::Binance => 0,
        Venue::Hyperliquid => 1,
        Venue::BinanceFutures => 2,
    }
}

/// Strict lexicographic order of texts by character code.
pub open spec fn text_lt(a: Seq<char>, b: Seq<char>) -> bool
    decreases a.len(),
{
    if a.len() == 0 {
        b.len() > 0
    } else if b.len() == 0 {
        false
    } else if a[0] != b[0] {
        a[0] < b[0]
    } else {
        text_lt(a.drop_first(), b.drop_first())
    }
}

/// Order of instruments: by venue name, then by symbol.
pub open spec fn key_lt(a: (Venue, Seq<char>), b: (Venue, Seq<char>)) -> bool {
    venue_rank(a.0) < venue_rank(b.0) || (venue_rank(a.0) == venue_rank(b.0) && text_lt(a.1, b.1))
}

pub(crate) proof fn lemma_text_trichotomy(a: Seq<char>, b: Seq<char>)
    ensures
        text_lt(a, b) || a == b || text_lt(b, a),
        !(text_lt(a, b) && text_lt(b, a)),
        !(text_lt(a, b) && a == b),
    decreases a.len(),
{
    if a.len() > 0 && b.len() > 0 {
        if a[0] == b[0] {
            lemma_text_trichotomy(a.drop_first(), b.drop_first());
            if a.drop_first() == b.drop_first() {
                assert(a =~= seq![a[0]] + a.drop_first());
                assert(b =~= seq![b[0]] + b.drop_first());
            }
        }
    } else if a.len() == 0 && b.len() == 0 {
        assert(a =~= b);
    }
}

pub(crate) proof fn lemma_text_transitive(a: Seq<char>, b: Seq<char>, c: Seq<char>)
    requires
        text_lt(a, b),
        text_lt(b, c),
    ensures
        text_lt(a, c),
    decreases a.len(),
{
    if a.len() > 0 && b.len() > 0 && c.len() > 0 {
        if a[0] == b[0] && b[0] == c[0] {
            lemma_text_transitive(a.drop_first(), b.drop_first(), c.drop_first());
        }
    }
}

proof fn lemma_key_trichotomy(a: (Venue, Seq<char>), b: (Venue, Seq<char>))
    ensures
        key_lt(a, b) || a == b || key_lt(b, a),
        !(key_lt(a, b) && key_lt(b, a)),
        !(key_lt(a, b) && a == b),
{
    lemma_text_trichotomy(a.1, b.1);
    if venue_rank(a.0) == venue_rank(b.0) {
        assert(a.0 == b.0);
    }
}

proof fn lemma_key_transitive(a: (Venue, Seq<char>), b: (Venue, Seq<char>), c: (Venue, Seq<char>))
    requires
        key_lt(a, b),
        key_lt(b, c),
    ensures
        key_lt(a, c),
{
    if venue_rank(a.0) == venue_rank(b.0) && venue_rank(b.0) == venue_rank(c.0) {
        lemma_text_transitive(a.1, b.1, c.1);
    }
}

fn venue_rank_exec(v: Venue) -> (r: u8)
    ensures
        r == venue_rank(v),
{
    match v {
        Venue::Binance => 0,
        Venue::Hyperliquid => 1,
        Venue::BinanceFutures => 2,
    }
}

pub(crate) fn text_lt_exec(a: &str, b: &str) -> (r: bool)
    ensures
        r == text_lt(a@, b@),
{
    let n = a.unicode_len();
    let m = b.unicode_len();
    let mut i: usize = 0;
    assert(a@.subrange(0, n as int) =~= a@);
    assert(b@.subrange(0, m as int) =~= b@);
    while i < n && i < m
        invariant
            i <= n,
            i <= m,
            n == a@.len(),
            m == b@.len(),
            text_lt(a@, b@) == text_lt(a@.subrange(i as int, n as int), b@.subrange(i as int, m as int)),
        decreases n - i,
    {
        let ghost sa = a@.subrange(i as int, n as int);
        let ghost sb = b@.subrange(i as int, m as int);
        assert(sa.drop_first() =~= a@.subrange(i as int + 1, n as int));
        assert(sb.drop_first() =~= b@.subrange(i as int + 1, m as int));
        let ca = a.get_char(i);
        let cb = b.get_char(i);
        if ca != cb {
            return ca < cb;
        }
        i = i + 1;
    }
    i == n && i < m
}

fn key_lt_exec(av: Venue, a: &str, bv: Venue, b: &str) -> (r: bool)
    ensures
        r == key_lt((av, a@), (bv, b@)),
{
    let ra = venue_rank_exec(av);
    let rb = venue_rank_exec(bv);
    ra < rb || (ra == rb && text_lt_exec(a, b))
}

/// The instrument of a market-data event.
pub open spec fn md_key(ev: Event) -> Option<(Venue, Seq<char>)> {
    match ev.kind {
        EventKind::Md(md) => Some((md.venue, md.symbol@)),
        EventKind::Sys(_) => None,
    }
}

/// Trades of the instrument among the events, in order (exchange time).
pub open spec fn trades_of(evs: Seq<Event>, key: (Venue, Seq<char>)) -> Seq<TradeRow>
    decreases evs.len(),
{
    if evs.len() == 0 {
        Seq::empty()
    } else {
        let rest = trades_of(evs.drop_last(), key);
        let ev = evs.last();
        match ev.kind {
            EventKind::Md(md) => if md.venue == key.0 && md.symbol@ == key.1 {
                match md.payload {
                    MdPayload::Trade { price, size, side, ts_exch_ms } => rest.push(
                        TradeRow { ts_ms: ts_exch_ms, price, size, side },
                    ),
                    _ => rest,
                }
            } else {
                rest
            },
            EventKind::Sys(_) => rest,
        }
    }
}

/// Snapshots of the instrument among the events, in order: exchange time and the two sides
/// of the book each leaves.
pub open spec fn snapshots_of(evs: Seq<Event>, key: (Venue, Seq<char>)) -> Seq<(i64, Seq<(i64, i64)>, Seq<(i64, i64)>)>
    decreases evs.len(),
{
    if evs.len() == 0 {
        Seq::empty()
    } else {
        let rest = snapshots_of(evs.drop_last(), key);
        let ev = evs.last();
        match ev.kind {
            EventKind::Md(md) => if md.venue == key.0 && md.symbol@ == key.1 {
                match md.payload {
                    MdPayload::L2Snapshot { bids, asks, ts_exch_ms } => rest.push(
                        (ts_exch_ms, snapshot_side(bids@, Side::Buy), snapshot_side(asks@, Side::Sell)),
                    ),
                    _ => rest,
                }
            } else {
                rest
            },
            EventKind::Sys(_) => rest,
        }
    }
}

/// The instrument has a market-data event among the events.
pub open spec fn has_md(evs: Seq<Event>, key: (Venue, Seq<char>)) -> bool {
    exists|i: int| 0 <= i < evs.len() && md_key(evs[i]) == Some(key)
}

/// Key of a bucket.
pub open spec fn bucket_key(b: InstrumentBucket) -> (Venue, Seq<char>) {
    (b.venue, b.symbol@)
}

/// Snapshot views of a bucket.
pub open spec fn bucket_snapshots(b: InstrumentBucket) -> Seq<(i64, Seq<(i64, i64)>, Seq<(i64, i64)>)> {
    crate::depth_series::snapshot_views(b.snapshots@)
}

/// The buckets are what the events say: one per instrument with market data, in instrument
/// order, each with the instrument's trades and snapshots in stream order.
pub open spec fn buckets_match(bs: Seq<InstrumentBucket>, evs: Seq<Event>) -> bool {
    &&& forall|i: int, j: int| 0 <= i < j < bs.len() ==> key_lt(bucket_key(#[trigger] bs[i]), bucket_key(#[trigger] bs[j]))
    &&& forall|i: int| 0 <= i < bs.len() ==> has_md(evs, bucket_key(#[trigger] bs[i]))
    &&& forall|k: (Venue, Seq<char>)| has_md(evs, k) ==> exists|i: int| 0 <= i < bs.len() && bucket_key(#[trigger] bs[i]) == k
    &&& forall|i: int| 0 <= i < bs.len() ==> (#[trigger] bs[i]).trades@ == trades_of(evs, bucket_key(bs[i]))
    &&& forall|i: int| 0 <= i < bs.len() ==> bucket_snapshots(#[trigger] bs[i]) == snapshots_of(evs, bucket_key(bs[i]))
    &&& forall|i: int, q: int| 0 <= i < bs.len() && 0 <= q < bs[i].snapshots@.len() ==> (#[trigger] bs[i].snapshots@[q]).1.wf()
}

/// Stream collector of the export.
pub struct ExportCollector {
    buckets: Vec<InstrumentBucket>,
    first_wall_ms: i64,
    last_wall_ms: i64,
    started: bool,
    seen: Ghost<Seq<Event>>,
}

impl ExportCollector {
    /// Events taken so far.
    pub closed spec fn events(&self) -> Seq<Event> {
        self.seen@
    }

    pub closed spec fn wf(&self) -> bool {
        &&& buckets_match(self.buckets@, self.seen@)
        &&& self.started == (self.seen@.len() > 0)
        &&& self.seen@.len() > 0 ==> self.first_wall_ms == self.seen@[0].ts_wall_ms && self.last_wall_ms == self.seen@.last().ts_wall_ms
        &&& self.seen@.len() == 0 ==> self.first_wall_ms == 0 && self.last_wall_ms == 0
    }

    /// No events yet.
    pub fn new() -> (r: Self)
        ensures
            r.wf(),
            r.events().len() == 0,
    {
        ExportCollector { buckets: Vec::new(), first_wall_ms: 0, last_wall_ms: 0, started: false, seen: Ghost(Seq::empty()) }
    }

    /// Take the next event of the stream.
    pub fn push(&mut self, ev: &Event)
        requires
            old(self).wf(),
        ensures
            final(self).wf(),
            final(self).events() == old(self).events().push(*ev),
    {
        let ghost e0 = self.seen@;
        let ghost e1 = e0.push(*ev);
        assert(e1.drop_last() =~= e0);
        let ghost b0 = self.buckets@;
        match &ev.kind {
            EventKind::Sys(_) => {
                proof {
                    assert forall|k: (Venue, Seq<char>)| has_md(e1, k) implies has_md(e0, k) by {
                        let i = choose|i: int| 0 <= i < e1.len() && md_key(e1[i]) == Some(k);
                        assert(i < e0.len());
                        assert(e0[i] == e1[i]);
                    }
                    assert forall|i: int| 0 <= i < b0.len() implies has_md(e1, bucket_key(#[trigger] b0[i])) by {
                        let w = choose|w: int| 0 <= w < e0.len() && md_key(e0[w]) == Some(bucket_key(b0[i]));
                        assert(e1[w] == e0[w]);
                    }
                }
            },
            EventKind::Md(md) => {
                let idx = self.slot(md.venue, &md.symbol);
                let ghost b1 = self.buckets@;
                let ghost key = (md.venue, md.symbol@);
                let mut bucket = self.buckets.remove(idx);
                match &md.payload {
                    MdPayload::Trade { price, size, side, ts_exch_ms } => {
                        bucket.trades.push(TradeRow { ts_ms: *ts_exch_ms, price: *price, size: *size, side: *side });
                    },
                    MdPayload::L2Snapshot { bids, asks, ts_exch_ms } => {
                        let mut book = OrderBook::new();
                        book.apply_snapshot(bids.as_slice(), asks.as_slice());
                        let ghost before = bucket.snapshots@;
                        bucket.snapshots.push((*ts_exch_ms, book));
                        proof {
                            assert(bucket_snapshots(bucket) =~= bucket_snapshots(b1[idx as int]).push(
                                (*ts_exch_ms, snapshot_side(bids@, Side::Buy), snapshot_side(asks@, Side::Sell)),
                            ));
                        }
                    },
                    _ => {},
                }
                self.buckets.insert(idx, bucket);
                proof {
                    let b2 = self.buckets@;
                    assert(b2 =~= b1.update(idx as int, bucket));
                    assert forall|k: (Venue, Seq<char>)| has_md(e1, k) implies exists|i: int| 0 <= i < b2.len() && bucket_key(#[trigger] b2[i]) == k by {
                        let w = choose|w: int| 0 <= w < e1.len() && md_key(e1[w]) == Some(k);
                        if w < e0.len() {
                            assert(e0[w] == e1[w]);
                            assert(has_md(e0, k));
                            let i = choose|i: int| 0 <= i < b1.len() && bucket_key(#[trigger] b1[i]) == k;
                            assert(bucket_key(b2[i]) == bucket_key(b1[i]));
                        } else {
                            assert(bucket_key(b2[idx as int]) == key);
                        }
                    }
                    assert forall|i: int| 0 <= i < b2.len() implies has_md(e1, bucket_key(#[trigger] b2[i])) by {
                        if i == idx as int {
                            assert(md_key(e1[e0.len() as int]) == Some(key));
                        } else {
                            assert(b2[i] == b1[i]);
                            let w = choose|w: int| 0 <= w < e0.len() && md_key(e0[w]) == Some(bucket_key(b1[i]));
                            assert(e1[w] == e0[w]);
                        }
                    }
                    assert forall|i: int| 0 <= i < b2.len() implies (#[trigger] b2[i]).trades@ == trades_of(e1, bucket_key(b2[i])) by {
                        if i != idx as int {
                            assert(b2[i] == b1[i]);
                            assert(bucket_key(b1[i]) != key) by {
                                if i < idx as int {
                                    assert(key_lt(bucket_key(b1[i]), bucket_key(b1[idx as int])));
                                } else {
                                    assert(key_lt(bucket_key(b1[idx as int]), bucket_key(b1[i])));
                                }
                                lemma_key_trichotomy(bucket_key(b1[i]), key);
                            }
                        }
                    }
                    assert forall|i: int| 0 <= i < b2.len() implies bucket_snapshots(#[trigger] b2[i]) == snapshots_of(e1, bucket_key(b2[i])) by {
                        if i != idx as int {
                            assert(b2[i] == b1[i]);
                            assert(bucket_key(b1[i]) != key) by {
                                if i < idx as int {
                                    assert(key_lt(bucket_key(b1[i]), bucket_key(b1[idx as int])));
                                } else {
                                    assert(key_lt(bucket_key(b1[idx as int]), bucket_key(b1[i])));
                                }
                                lemma_key_trichotomy(bucket_key(b1[i]), key);
                            }
                        }
                    }
                    assert forall|i: int, q: int| 0 <= i < b2.len() && 0 <= q < b2[i].snapshots@.len() implies (#[trigger] b2[i].snapshots@[q]).1.wf() by {
                        if i != idx as int {
                            assert(b2[i] == b1[i]);
                        }
                    }
                    assert forall|i: int, j: int| 0 <= i < j < b2.len() implies key_lt(bucket_key(#[trigger] b2[i]), bucket_key(#[trigger] b2[j])) by {
                        assert(bucket_key(b2[i]) == bucket_key(b1[i]));
                        assert(bucket_key(b2[j]) == bucket_key(b1[j]));
                    }
                }
            },
        }
        if !self.started {
            self.first_wall_ms = ev.ts_wall_ms;
            self.started = true;
        }
        self.last_wall_ms = ev.ts_wall_ms;
        self.seen = Ghost(e1);
    }

    /// Index of the instrument's bucket, added (empty, in instrument order) if new; the
    /// events are those taken so far.
    fn slot(&mut self, venue: Venue, symbol: &String) -> (r: usize)
        requires
            old(self).wf(),
        ensures
            r < final(self).buckets@.len(),
            bucket_key(final(self).buckets@[r as int]) == (venue, symbol@),
            final(self).seen == old(self).seen,
            final(self).started == old(self).started,
            final(self).first_wall_ms == old(self).first_wall_ms,
            final(self).last_wall_ms == old(self).last_wall_ms,
            forall|i: int, j: int| 0 <= i < j < final(self).buckets@.len() ==> key_lt(
                bucket_key(#[trigger] final(self).buckets@[i]),
                bucket_key(#[trigger] final(self).buckets@[j]),
            ),
            forall|i: int| 0 <= i < final(self).buckets@.len() && i != r ==> has_md(final(self).seen@, bucket_key(#[trigger] final(self).buckets@[i])),
            forall|k: (Venue, Seq<char>)| has_md(final(self).seen@, k) ==> exists|i: int| 0 <= i < final(self).buckets@.len() && bucket_key(#[trigger] final(self).buckets@[i]) == k,
            forall|i: int| 0 <= i < final(self).buckets@.len() ==> (#[trigger] final(self).buckets@[i]).trades@ == trades_of(final(self).seen@, bucket_key(final(self).buckets@[i])),
            forall|i: int| 0 <= i < final(self).buckets@.len() ==> bucket_snapshots(#[trigger] final(self).buckets@[i]) == snapshots_of(final(self).seen@, bucket_key(final(self).buckets@[i])),
            forall|i: int, q: int| 0 <= i < final(self).buckets@.len() && 0 <= q < final(self).buckets@[i].snapshots@.len() ==> (#[trigger] final(self).buckets@[i].snapshots@[q]).1.wf(),
    {
        let ghost b0 = self.buckets@;
        let ghost evs = self.seen@;
        let ghost key = (venue, symbol@);
        let mut i: usize = 0;
        while i < self.buckets.len()
            invariant
                i <= self.buckets@.len(),
                self.buckets@ == b0,
                key == (venue, symbol@),
                forall|j: int| 0 <= j < i ==> key_lt(bucket_key(#[trigger] b0[j]), key),
            ensures
                i <= self.buckets@.len(),
                self.buckets@ == b0,
                forall|j: int| 0 <= j < i ==> key_lt(bucket_key(#[trigger] b0[j]), key),
                i < b0.len() ==> !key_lt(bucket_key(b0[i as int]), key),
            decreases self.buckets@.len() - i,
        {
            let bv = self.buckets[i].venue;
            let bs = self.buckets[i].symbol.as_str();
            let below = key_lt_exec(bv, bs, venue, symbol.as_str());
            assert(below == key_lt(bucket_key(b0[i as int]), key));
            if !below {
                break;
            }
            i = i + 1;
        }
        if i < self.buckets.len() && self.buckets[i].venue == venue && crate::signals::str_eq(self.buckets[i].symbol.as_str(), symbol.as_str()) {
            assert(bucket_key(b0[i as int]) == key);
            return i;
        }
        proof {
            if i < b0.len() {
                lemma_key_trichotomy(bucket_key(b0[i as int]), key);
                assert(key_lt(key, bucket_key(b0[i as int])));
            }
            // The new instrument has no bucket, so it has no market data yet.
            assert(!has_md(evs, key)) by {
                if has_md(evs, key) {
                    let j = choose|j: int| 0 <= j < b0.len() && bucket_key(#[trigger] b0[j]) == key;
                    if j < i as int {
                        lemma_key_trichotomy(bucket_key(b0[j]), key);
                    } else if j > i as int {
                        lemma_key_transitive(key, bucket_key(b0[i as int]), bucket_key(b0[j]));
                        lemma_key_trichotomy(key, bucket_key(b0[j]));
                    }
                }
            }
            lemma_trades_of_absent(evs, key);
            lemma_snapshots_of_absent(evs, key);
        }
        let bucket = InstrumentBucket {
            venue,
            symbol: symbol.as_str().to_owned(),
            trades: Vec::new(),
            snapshots: Vec::new(),
        };
        assert(bucket_snapshots(bucket) =~= Seq::<(i64, Seq<(i64, i64)>, Seq<(i64, i64)>)>::empty());
        self.buckets.insert(i, bucket);
        proof {
            let b1 = self.buckets@;
            assert forall|a: int, c: int| 0 <= a < c < b1.len() implies key_lt(bucket_key(#[trigger] b1[a]), bucket_key(#[trigger] b1[c])) by {
                if c < i as int {
                    assert(b1[a] == b0[a] && b1[c] == b0[c]);
                } else if c == i as int {
                    assert(b1[a] == b0[a]);
                } else if a == i as int {
                    assert(b1[c] == b0[c - 1]);
                    if c - 1 > i as int {
                        lemma_key_transitive(key, bucket_key(b0[i as int]), bucket_key(b0[c - 1]));
                    }
                } else if a < i as int {
                    assert(b1[a] == b0[a] && b1[c] == b0[c - 1]);
                } else {
                    assert(b1[a] == b0[a - 1] && b1[c] == b0[c - 1]);
                }
            }
            assert forall|k: (Venue, Seq<char>)| has_md(evs, k) implies exists|j: int| 0 <= j < b1.len() && bucket_key(#[trigger] b1[j]) == k by {
                let j = choose|j: int| 0 <= j < b0.len() && bucket_key(#[trigger] b0[j]) == k;
                if j < i as int {
                    assert(b1[j] == b0[j]);
                } else {
                    assert(b1[j + 1] == b0[j]);
                }
            }
            assert forall|j: int| 0 <= j < b1.len() && j != i implies has_md(evs, bucket_key(#[trigger] b1[j])) by {
                if j < i as int {
                    assert(b1[j] == b0[j]);
                } else if j > i as int {
                    assert(b1[j] == b0[j - 1]);
                }
            }
            assert forall|j: int| 0 <= j < b1.len() implies (#[trigger] b1[j]).trades@ == trades_of(evs, bucket_key(b1[j])) by {
                if j < i as int {
                    assert(b1[j] == b0[j]);
                } else if j > i as int {
                    assert(b1[j] == b0[j - 1]);
                }
            }
            assert forall|j: int| 0 <= j < b1.len() implies bucket_snapshots(#[trigger] b1[j]) == snapshots_of(evs, bucket_key(b1[j])) by {
                if j < i as int {
                    assert(b1[j] == b0[j]);
                } else if j > i as int {
                    assert(b1[j] == b0[j - 1]);
                }
            }
            assert forall|j: int, q: int| 0 <= j < b1.len() && 0 <= q < b1[j].snapshots@.len() implies (#[trigger] b1[j].snapshots@[q]).1.wf() by {
                if j < i as int {
                    assert(b1[j] == b0[j]);
                } else if j > i as int {
                    assert(b1[j] == b0[j - 1]);
                }
            }
        }
        i
    }

    /// The buckets in instrument order, with the window's first and last wall clock (0 and
    /// 0 for an empty stream).
    pub fn finish(self) -> (r: (Vec<InstrumentBucket>, i64, i64))
        requires
            self.wf(),
        ensures
            buckets_match(r.0@, self.events()),
            self.events().len() > 0 ==> r.1 == self.events()[0].ts_wall_ms && r.2 == self.events().last().ts_wall_ms,
            self.events().len() == 0 ==> r.1 == 0 && r.2 == 0,
    {
        (self.buckets, self.first_wall_ms, self.last_wall_ms)
    }
}

/// `v` holds the texts of `ids`, each once, in text order.
pub open spec fn epochs_ok(v: Seq<Seq<char>>, ids: Seq<Seq<char>>) -> bool {
    &&& forall|a: int, b: int| 0 <= a < b < v.len() ==> text_lt(#[trigger] v[a], #[trigger] v[b])
    &&& forall|a: int| 0 <= a < v.len() ==> ids.contains(#[trigger] v[a])
    &&& forall|i: int| 0 <= i < ids.len() ==> v.contains(#[trigger] ids[i])
}

/// Settings of an export: `None` for a timeframe that is not positive; otherwise the epoch
/// ids in text order, each once.
pub fn export_settings(timeframe_ms: i64, epoch_ids: &Vec<String>) -> (r: Option<Vec<String>>)
    ensures
        r is None <==> timeframe_ms <= 0,
        r matches Some(v) ==> epochs_ok(texts(v@), texts(epoch_ids@)),
{
    if timeframe_ms <= 0 {
        return None;
    }
    let ghost ids = texts(epoch_ids@);
    let mut out: Vec<String> = Vec::new();
    let mut i: usize = 0;
    while i < epoch_ids.len()
        invariant
            i <= epoch_ids@.len(),
            ids == texts(epoch_ids@),
            epochs_ok(texts(out@), ids.subrange(0, i as int)),
        decreases epoch_ids@.len() - i,
    {
        let ghost before = texts(out@);
        let ghost pre = ids.subrange(0, i as int);
        let ghost post = ids.subrange(0, i as int + 1);
        let id = epoch_ids[i].as_str();
        assert(ids[i as int] == id@);
        let mut p: usize = 0;
        while p < out.len() && text_lt_exec(out[p].as_str(), id)
            invariant
                p <= out@.len(),
                before == texts(out@),
                forall|q: int| 0 <= q < p ==> text_lt(#[trigger] before[q], id@),
            decreases out@.len() - p,
        {
            p = p + 1;
        }
        proof {
            assert forall|q: int| 0 <= q < pre.len() implies #[trigger] post[q] == pre[q] by {}
            assert(post[i as int] == id@);
        }
        if p < out.len() && crate::signals::str_eq(out[p].as_str(), id) {
            proof {
                assert(before[p as int] == id@);
                assert forall|a: int| 0 <= a < before.len() implies post.contains(#[trigger] before[a]) by {
                    let w = choose|w: int| 0 <= w < pre.len() && pre[w] == before[a];
                    assert(post[w] == before[a]);
                }
                assert forall|w: int| 0 <= w < post.len() implies before.contains(#[trigger] post[w]) by {
                    if w < pre.len() {
                        assert(post[w] == pre[w]);
                    } else {
                        assert(before[p as int] == post[w]);
                    }
                }
            }
        } else {
            proof {
                if (p as int) < before.len() {
                    lemma_text_trichotomy(before[p as int], id@);
                }
                assert(!before.contains(id@)) by {
                    if before.contains(id@) {
                        let q = choose|q: int| 0 <= q < before.len() && before[q] == id@;
                        lemma_text_trichotomy(id@, id@);
                        if q > p as int {
                            assert(text_lt(before[p as int], before[q]));
                        }
                    }
                }
            }
            out.insert(p, id.to_owned());
            proof {
                let after = texts(out@);
                let n = p as int;
                assert(after =~= before.insert(n, id@));
                assert forall|a: int, b: int| 0 <= a < b < after.len() implies text_lt(#[trigger] after[a], #[trigger] after[b]) by {
                    if b < n {
                        assert(after[a] == before[a] && after[b] == before[b]);
                    } else if b == n {
                        assert(after[a] == before[a]);
                    } else if a < n {
                        assert(after[a] == before[a] && after[b] == before[b - 1]);
                        if b - 1 > n {
                            assert(text_lt(before[n], before[b - 1]));
                            lemma_text_transitive(id@, before[n], before[b - 1]);
                        }
                        lemma_text_transitive(before[a], id@, before[b - 1]);
                    } else if a == n {
                        assert(after[b] == before[b - 1]);
                        if b - 1 > n {
                            assert(text_lt(before[n], before[b - 1]));
                            lemma_text_transitive(id@, before[n], before[b - 1]);
                        }
                    } else {
                        assert(after[a] == before[a - 1] && after[b] == before[b - 1]);
                    }
                }
                assert forall|a: int| 0 <= a < after.len() implies post.contains(#[trigger] after[a]) by {
                    if a == n {
                        assert(post[i as int] == after[a]);
                    } else {
                        let b0 = if a < n { a } else { a - 1 };
                        assert(after[a] == before[b0]);
                        let w = choose|w: int| 0 <= w < pre.len() && pre[w] == before[b0];
                        assert(post[w] == after[a]);
                    }
                }
                assert forall|w: int| 0 <= w < post.len() implies after.contains(#[trigger] post[w]) by {
                    if w < pre.len() {
                        assert(post[w] == pre[w]);
                        assert(before.contains(pre[w]));
                        let q = choose|q: int| 0 <= q < before.len() && before[q] == pre[w];
                        let q1 = if q < n { q } else { q + 1 };
                        assert(after[q1] == before[q]);
                    } else {
                        assert(after[n] == post[w]);
                    }
                }
            }
        }
        i = i + 1;
    }
    assert(ids.subrange(0, epoch_ids@.len() as int) =~= ids);
    Some(out)
}

/// `r` is the export of the stream `evs`: one artifact per instrument with market data, in
/// instrument order, each under its venue's export name and its symbol, each meeting
/// `artifact_ok` over the instrument's trades and snapshots and the stream's window.
pub open spec fn export_result_ok(r: Seq<(String, String, ExportArtifact)>, evs: Seq<Event>, epochs: Seq<Seq<char>>, timeframe_ms: i64, bands: Seq<i64>) -> bool {
    let first = if evs.len() > 0 { evs[0].ts_wall_ms } else { 0 };
    let last = if evs.len() > 0 { evs.last().ts_wall_ms } else { 0 };
    &&& forall|k: (Venue, Seq<char>)| has_md(evs, k) <==> exists|i: int| 0 <= i < r.len() && (venue_of_name(r[i].0@), r[i].1@) == k
    &&& forall|i: int, j: int| 0 <= i < j < r.len() ==> key_lt(
        (venue_of_name((#[trigger] r[i]).0@), r[i].1@),
        (venue_of_name((#[trigger] r[j]).0@), r[j].1@),
    )
    &&& forall|i: int| 0 <= i < r.len() ==> {
        let key = (venue_of_name((#[trigger] r[i]).0@), r[i].1@);
        &&& r[i].0@ == venue_name(key.0)
        &&& artifact_ok(r[i].2, key.0, key.1, epochs, timeframe_ms, bands, trades_of(evs, key), snapshots_of(evs, key), first, last)
    }
}

/// The artifacts of all instruments of the stream, in instrument order, each with its
/// venue's export name and its symbol (the caller writes `<venue>/<symbol>.json`).
pub fn export_artifacts(collector: ExportCollector, epoch_ids: &Vec<String>, timeframe_ms: i64, bands_e8: &Vec<i64>) -> (r: Vec<(String, String, ExportArtifact)>)
    requires
        collector.wf(),
        forall|k: (Venue, Seq<char>)| has_md(collector.events(), k) ==> export_inputs_fit(trades_of(collector.events(), k), timeframe_ms as int),
        2 * bands_e8@.len() <= usize::MAX,
    ensures
        export_result_ok(r@, collector.events(), texts(epoch_ids@), timeframe_ms, bands_e8@),
{
    let ghost evs = collector.events();
    let (buckets, first, last) = collector.finish();
    let mut out: Vec<(String, String, ExportArtifact)> = Vec::new();
    let mut i: usize = 0;
    while i < buckets.len()
        invariant
            i <= buckets@.len(),
            buckets_match(buckets@, evs),
            2 * bands_e8@.len() <= usize::MAX,
            forall|k: (Venue, Seq<char>)| has_md(evs, k) ==> export_inputs_fit(trades_of(evs, k), timeframe_ms as int),
            out@.len() == i,
            evs.len() > 0 ==> first == evs[0].ts_wall_ms && last == evs.last().ts_wall_ms,
            evs.len() == 0 ==> first == 0 && last == 0,
            forall|q: int| 0 <= q < i ==> {
                let key = bucket_key(buckets@[q]);
                &&& (#[trigger] out@[q]).0@ == venue_name(key.0)
                &&& out@[q].1@ == key.1
                &&& artifact_ok(out@[q].2, key.0, key.1, texts(epoch_ids@), timeframe_ms, bands_e8@,
                    trades_of(evs, key), snapshots_of(evs, key), first, last)
            },
        decreases buckets@.len() - i,
    {
        let b = &buckets[i];
        assert(has_md(evs, bucket_key(buckets@[i as int])));
        assert forall|q: int| 0 <= q < b.snapshots@.len() implies (#[trigger] b.snapshots@[q]).1.wf() by {
            assert(buckets@[i as int].snapshots@[q].1.wf());
        }
        let art = build_artifact(b.venue, b.symbol.as_str(), epoch_ids, timeframe_ms, bands_e8, b, first, last);
        let name = venue_slug(b.venue).to_owned();
        let sym = b.symbol.as_str().to_owned();
        out.push((name, sym, art));
        i = i + 1;
    }
    proof {
        assert forall|q: int| 0 <= q < out@.len() implies (venue_of_name((#[trigger] out@[q]).0@), out@[q].1@) == bucket_key(buckets@[q]) by {
            lemma_venue_name(buckets@[q].venue);
        }
        assert forall|a: int, c: int| 0 <= a < c < out@.len() implies key_lt(
            (venue_of_name((#[trigger] out@[a]).0@), out@[a].1@),
            (venue_of_name((#[trigger] out@[c]).0@), out@[c].1@),
        ) by {
            assert(key_lt(bucket_key(buckets@[a]), bucket_key(buckets@[c])));
            lemma_venue_name(buckets@[a].venue);
            lemma_venue_name(buckets@[c].venue);
        }
        assert forall|k: (Venue, Seq<char>)| has_md(evs, k) <==> exists|q: int| 0 <= q < out@.len() && (venue_of_name(out@[q].0@), out@[q].1@) == k by {
            if has_md(evs, k) {
                let q = choose|q: int| 0 <= q < buckets@.len() && bucket_key(#[trigger] buckets@[q]) == k;
                lemma_venue_name(buckets@[q].venue);
                assert((venue_of_name(out@[q].0@), out@[q].1@) == k);
            }
            if exists|q: int| 0 <= q < out@.len() && (venue_of_name(out@[q].0@), out@[q].1@) == k {
                let q = choose|q: int| 0 <= q < out@.len() && (venue_of_name(out@[q].0@), out@[q].1@) == k;
                lemma_venue_name(buckets@[q].venue);
                assert(has_md(evs, bucket_key(buckets@[q])));
            }
        }
        assert forall|q: int| 0 <= q < out@.len() implies {
            let key = (venue_of_name((#[trigger] out@[q]).0@), out@[q].1@);
            &&& out@[q].0@ == venue_name(key.0)
            &&& artifact_ok(out@[q].2, key.0, key.1, texts(epoch_ids@), timeframe_ms, bands_e8@,
                trades_of(evs, key), snapshots_of(evs, key), first, last)
        } by {
            lemma_venue_name(buckets@[q].venue);
        }
    }
    out
}

/// Export name of a venue.
pub open spec fn venue_name(v: Venue) -> Seq<char> {
    match v {
        Venue::Binance => "binance"@,
        Venue::Hyperliquid => "hyperliquid"@,
        _ => "unknown"@,
    }
}

/// The venue an export name stands for.
pub open spec fn venue_of_name(n: Seq<char>) -> Venue {
    if n == "binance"@ {
        Venue::Binance
    } else if n == "hyperliquid"@ {
        Venue::Hyperliquid
    } else {
        Venue::BinanceFutures
    }
}

proof fn lemma_venue_name(v: Venue)
    ensures
        venue_of_name(venue_name(v)) == v,
{
    reveal_strlit("binance");
    reveal_strlit("hyperliquid");
    reveal_strlit("unknown");
    match v {
        Venue::Binance => {},
        Venue::Hyperliquid => {
            assert("hyperliquid"@ != "binance"@) by {
                assert("hyperliquid"@[0] != "binance"@[0]);
            }
        },
        Venue::BinanceFutures => {
            assert("unknown"@ != "binance"@) by {
                assert("unknown"@[0] != "binance"@[0]);
            }
            assert("unknown"@ != "hyperliquid"@) by {
                assert("unknown"@[0] != "hyperliquid"@[0]);
            }
        },
    }
}

proof fn lemma_trades_of_absent(evs: Seq<Event>, key: (Venue, Seq<char>))
    requires
        !has_md(evs, key),
    ensures
        trades_of(evs, key) == Seq::<TradeRow>::empty(),
    decreases evs.len(),
{
    if evs.len() > 0 {
        let e0 = evs.drop_last();
        assert(!has_md(e0, key)) by {
            if has_md(e0, key) {
                let i = choose|i: int| 0 <= i < e0.len() && md_key(e0[i]) == Some(key);
                assert(evs[i] == e0[i]);
            }
        }
        lemma_trades_of_absent(e0, key);
        assert(md_key(evs[evs.len() - 1]) != Some(key));
    }
}

proof fn lemma_snapshots_of_absent(evs: Seq<Event>, key: (Venue, Seq<char>))
    requires
        !has_md(evs, key),
    ensures
        snapshots_of(evs, key) == Seq::<(i64, Seq<(i64, i64)>, Seq<(i64, i64)>)>::empty(),
    decreases evs.len(),
{
    if evs.len() > 0 {
        let e0 = evs.drop_last();
        assert(!has_md(e0, key)) by {
            if has_md(e0, key) {
                let i = choose|i: int| 0 <= i < e0.len() && md_key(e0[i]) == Some(key);
                assert(evs[i] == e0[i]);
            }
        }
        lemma_snapshots_of_absent(e0, key);
        assert(md_key(evs[evs.len() - 1]) != Some(key));
    }
}

} // verus!
