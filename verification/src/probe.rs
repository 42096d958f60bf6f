//! Market-data latency samples for the simulator's latency artifacts: the delay of each
//! market-data event from its exchange stamp to its arrival on the recorder's clock, and
//! the uniform thinning of an instrument's samples.

use vstd::prelude::*;

use crate::export_collect::{lemma_text_transitive, lemma_text_trichotomy, md_key, text_lt, text_lt_exec};
use crate::market::{Event, EventKind, MdPayload, Venue};

verus! {

/// Most market-data samples kept per instrument.
pub const MAX_MD_SAMPLES: usize = 5000;

/// Venue name as the latency artifacts write it.
pub fn venue_str(v: Venue) -> (r: &'static str)
    ensures
        r@ == match v {
            Venue::Binance => "Binance"@,
            Venue::Hyperliquid => "Hyperliquid"@,
            Venue::BinanceFutures => "BinanceFutures"@,
        },
{
    match v {
        Venue::Binance => "Binance",
        Venue::Hyperliquid => "Hyperliquid",
        Venue::BinanceFutures => "BinanceFutures",
    }
}

/// What the probe reads from one event.
#[derive(Clone, Copy, Debug, PartialEq, Eq, Structural)]
pub enum ProbeReading {
    /// Not a trade, snapshot or funding event: no sample.
    NotSampled,
    /// A trade (`0`), snapshot (`1`) or funding (`2`) event without an exchange stamp.
    MissingStamp(u8),
    /// Delay in nanoseconds.
    Delay(u64),
}

/// Exchange stamp and payload code of an event the probe samples.
pub open spec fn sampled_stamp(ev: Event) -> Option<(i64, u8)> {
    match ev.kind {
        EventKind::Md(md) => match md.payload {
            MdPayload::Trade { ts_exch_ms, .. } => Some((ts_exch_ms, 0u8)),
            MdPayload::L2Snapshot { ts_exch_ms, .. } => Some((ts_exch_ms, 1u8)),
            MdPayload::Funding { ts_exch_ms, .. } => Some((ts_exch_ms, 2u8)),
            _ => None,
        },
        _ => None,
    }
}

/// Delay of the event: wall time minus exchange stamp, clamped at 0 (the two clocks are
/// not synchronised; a negative difference is skew, not latency), in nanoseconds.
pub open spec fn delay_ns(ts_wall_ms: i64, ts_exch_ms: i64) -> int {
    let d = ts_wall_ms - ts_exch_ms;
    (if d < 0 { 0 } else { d }) * 1_000_000
}

/// The probe's reading of an event: a stamp ≤ 0 is missing, not a measurement.
pub open spec fn reading_of(ev: Event) -> ProbeReading {
    match sampled_stamp(ev) {
        None => ProbeReading::NotSampled,
        Some((ts, code)) => if ts <= 0 {
            ProbeReading::MissingStamp(code)
        } else {
            ProbeReading::Delay(delay_ns(ev.ts_wall_ms, ts) as u64)
        },
    }
}

/// The delay of a sampled, stamped event fits the sample type.
pub open spec fn reading_fits(ev: Event) -> bool {
    match sampled_stamp(ev) {
        Some((ts, _)) => ts > 0 ==> delay_ns(ev.ts_wall_ms, ts) <= u64::MAX,
        None => true,
    }
}

/// Whether the event's delay fits the sample type (see `reading_fits`).
pub fn sample_fits(ev: &Event) -> (r: bool)
    ensures
        r == reading_fits(*ev),
{
    let ts: i64 = match &ev.kind {
        EventKind::Md(md) => match &md.payload {
            MdPayload::Trade { ts_exch_ms, .. } => *ts_exch_ms,
            MdPayload::L2Snapshot { ts_exch_ms, .. } => *ts_exch_ms,
            MdPayload::Funding { ts_exch_ms, .. } => *ts_exch_ms,
            _ => return true,
        },
        _ => return true,
    };
    if ts <= 0 {
        return true;
    }
    let d: i128 = ev.ts_wall_ms as i128 - ts as i128;
    let clamped: i128 = if d < 0 { 0 } else { d };
    clamped <= (u64::MAX / 1_000_000) as i128
}

/// Read one event (see `reading_of`).
pub fn probe_reading(ev: &Event) -> (r: ProbeReading)
    requires
        reading_fits(*ev),
    ensures
        r == reading_of(*ev),
{
    let md = match &ev.kind {
        EventKind::Md(md) => md,
        _ => return ProbeReading::NotSampled,
    };
    let (ts, code): (i64, u8) = match &md.payload {
        MdPayload::Trade { ts_exch_ms, .. } => (*ts_exch_ms, 0u8),
        MdPayload::L2Snapshot { ts_exch_ms, .. } => (*ts_exch_ms, 1u8),
        MdPayload::Funding { ts_exch_ms, .. } => (*ts_exch_ms, 2u8),
        _ => return ProbeReading::NotSampled,
    };
    if ts <= 0 {
        return ProbeReading::MissingStamp(code);
    }
    let d: i128 = ev.ts_wall_ms as i128 - ts as i128;
    let clamped: i128 = if d < 0 { 0 } else { d };
    assert(clamped * 1_000_000 <= u64::MAX);
    let ns: u128 = clamped as u128 * 1_000_000u128;
    ProbeReading::Delay(ns as u64)
}

/// Thinning of the samples to at most `MAX_MD_SAMPLES`: all of them when there are few
/// enough, otherwise the samples at indices `i · len / MAX_MD_SAMPLES` for each `i` below
/// the maximum.
pub fn subsample_uniform(samples: Vec<u64>) -> (r: Vec<u64>)
    requires
        samples@.len() * MAX_MD_SAMPLES <= usize::MAX,
    ensures
        samples@.len() <= MAX_MD_SAMPLES ==> r@ == samples@,
        samples@.len() > MAX_MD_SAMPLES ==> {
            &&& r@.len() == MAX_MD_SAMPLES
            &&& forall|i: int| 0 <= i < MAX_MD_SAMPLES ==> #[trigger] r@[i] == samples@[i * samples@.len() / (MAX_MD_SAMPLES as int)]
        },
{
    let len = samples.len();
    if len <= MAX_MD_SAMPLES {
        return samples;
    }
    let mut out: Vec<u64> = Vec::new();
    let mut i: usize = 0;
    while i < MAX_MD_SAMPLES
        invariant
            i <= MAX_MD_SAMPLES,
            len == samples@.len(),
            len > MAX_MD_SAMPLES,
            len * MAX_MD_SAMPLES <= usize::MAX,
            out@.len() == i,
            forall|q: int| 0 <= q < i ==> #[trigger] out@[q] == samples@[q * len / (MAX_MD_SAMPLES as int)],
        decreases MAX_MD_SAMPLES - i,
    {
        assert(i * len <= len * MAX_MD_SAMPLES) by (nonlinear_arith)
            requires i <= MAX_MD_SAMPLES, len >= 0;
        let k = i * len / MAX_MD_SAMPLES;
        assert(k < len) by (nonlinear_arith)
            requires k == i * len / (MAX_MD_SAMPLES as int), i < MAX_MD_SAMPLES, len > 0, MAX_MD_SAMPLES == 5000;
        out.push(samples[k]);
        i = i + 1;
    }
    out
}

/// Samples in ascending order.
pub open spec fn ascending(s: Seq<u64>) -> bool {
    forall|i: int, j: int| 0 <= i < j < s.len() ==> s[i] <= s[j]
}

/// The samples in ascending order: the same values, each as often.
pub fn sort_samples(v: Vec<u64>) -> (r: Vec<u64>)
    ensures
        ascending(r@),
        r@.to_multiset() == v@.to_multiset(),
{
    broadcast use vstd::seq_lib::to_multiset_build, vstd::seq_lib::to_multiset_insert;
    let mut out: Vec<u64> = Vec::new();
    let mut i: usize = 0;
    assert(v@.subrange(0, 0) =~= Seq::<u64>::empty());
    while i < v.len()
        invariant
            i <= v@.len(),
            ascending(out@),
            out@.to_multiset() == v@.subrange(0, i as int).to_multiset(),
        decreases v@.len() - i,
    {
        let x = v[i];
        let mut p: usize = 0;
        while p < out.len() && out[p] <= x
            invariant
                p <= out@.len(),
                forall|q: int| 0 <= q < p ==> out@[q] <= x,
            decreases out@.len() - p,
        {
            p = p + 1;
        }
        let ghost before = out@;
        out.insert(p, x);
        proof {
            assert(v@.subrange(0, i as int + 1) =~= v@.subrange(0, i as int).push(x));
            vstd::seq_lib::to_multiset_build(v@.subrange(0, i as int), x);
            vstd::seq_lib::to_multiset_insert(before, p as int, x);
            let s = out@;
            assert forall|a: int, b: int| 0 <= a < b < s.len() implies s[a] <= s[b] by {
                if b < p as int {
                } else if b == p as int {
                    assert(before[a] <= x);
                } else if a < p as int {
                    assert(s[b] == before[b - 1]);
                } else if a == p as int {
                    assert(s[b] == before[b - 1]);
                    assert(before[p as int] > x);
                } else {
                    assert(s[a] == before[a - 1] && s[b] == before[b - 1]);
                }
            }
        }
        i = i + 1;
    }
    assert(v@.subrange(0, v@.len() as int) =~= v@);
    out
}

/// Rank of a venue in the order of its probe name: `Binance`, `BinanceFutures`,
/// `Hyperliquid`.
pub open spec fn probe_venue_rank(v: Venue) -> int {
    match v {
        Venue::Binance => 0,
        Venue::BinanceFutures => 1,
        Venue::Hyperliquid => 2,
    }
}

/// Order of instruments: by probe venue name, then by symbol.
pub open spec fn instrument_lt(a: (Venue, Seq<char>), b: (Venue, Seq<char>)) -> bool {
    probe_venue_rank(a.0) < probe_venue_rank(b.0) || (probe_venue_rank(a.0) == probe_venue_rank(b.0) && text_lt(a.1, b.1))
}

proof fn lemma_instrument_order(a: (Venue, Seq<char>), b: (Venue, Seq<char>), c: (Venue, Seq<char>))
    ensures
        instrument_lt(a, b) || a == b || instrument_lt(b, a),
        !(instrument_lt(a, b) && instrument_lt(b, a)),
        !instrument_lt(a, a),
        instrument_lt(a, b) && instrument_lt(b, c) ==> instrument_lt(a, c),
{
    lemma_text_trichotomy(a.1, b.1);
    lemma_text_trichotomy(a.1, a.1);
    if probe_venue_rank(a.0) == probe_venue_rank(b.0) {
        assert(a.0 == b.0);
    }
    if instrument_lt(a, b) && instrument_lt(b, c) && probe_venue_rank(a.0) == probe_venue_rank(b.0)
        && probe_venue_rank(b.0) == probe_venue_rank(c.0) {
        lemma_text_transitive(a.1, b.1, c.1);
    }
}

fn probe_venue_rank_exec(v: Venue) -> (r: u8)
    ensures
        r == probe_venue_rank(v),
{
    match v {
        Venue::Binance => 0,
        Venue::BinanceFutures => 1,
        Venue::Hyperliquid => 2,
    }
}

fn instrument_lt_exec(av: Venue, a: &str, bv: Venue, b: &str) -> (r: bool)
    ensures
        r == instrument_lt((av, a@), (bv, b@)),
{
    let ra = probe_venue_rank_exec(av);
    let rb = probe_venue_rank_exec(bv);
    ra < rb || (ra == rb && text_lt_exec(a, b))
}

/// Delays read from the instrument's events, in event order.
pub open spec fn delays_of(evs: Seq<Event>, key: (Venue, Seq<char>)) -> Seq<u64>
    decreases evs.len(),
{
    if evs.len() == 0 {
        Seq::empty()
    } else {
        let prev = delays_of(evs.drop_last(), key);
        match reading_of(evs.last()) {
            ProbeReading::Delay(ns) => if md_key(evs.last()) == Some(key) { prev.push(ns) } else { prev },
            _ => prev,
        }
    }
}

/// Number of the instrument's events of a payload code read without an exchange stamp.
pub open spec fn missing_of(evs: Seq<Event>, key: (Venue, Seq<char>), code: u8) -> nat
    decreases evs.len(),
{
    if evs.len() == 0 {
        0
    } else {
        missing_of(evs.drop_last(), key, code) + if md_key(evs.last()) == Some(key)
            && reading_of(evs.last()) == ProbeReading::MissingStamp(code) { 1nat } else { 0nat }
    }
}

/// Some event of the instrument gave a reading (a delay or a missing stamp).
pub open spec fn has_reading(evs: Seq<Event>, key: (Venue, Seq<char>)) -> bool {
    exists|i: int| 0 <= i < evs.len() && md_key(#[trigger] evs[i]) == Some(key) && reading_of(evs[i]) != ProbeReading::NotSampled
}

/// The readings of one instrument: its delays in event order and its events without an
/// exchange stamp, per payload.
pub struct InstrumentReadings {
    pub venue: Venue,
    pub symbol: String,
    pub delays: Vec<u64>,
    pub missing_trade: u64,
    pub missing_snapshot: u64,
    pub missing_funding: u64,
}

pub open spec fn readings_key(r: InstrumentReadings) -> (Venue, Seq<char>) {
    (r.venue, r.symbol@)
}

/// The entry holds what the events say of its instrument.
pub open spec fn readings_ok(r: InstrumentReadings, evs: Seq<Event>) -> bool {
    let k = readings_key(r);
    &&& r.delays@ == delays_of(evs, k)
    &&& r.missing_trade == missing_of(evs, k, 0)
    &&& r.missing_snapshot == missing_of(evs, k, 1)
    &&& r.missing_funding == missing_of(evs, k, 2)
}

/// The entries are the instruments with a reading, in instrument order, each holding what
/// the events say of it.
pub open spec fn grouping_ok(r: Seq<InstrumentReadings>, evs: Seq<Event>) -> bool {
    &&& forall|i: int, j: int| 0 <= i < j < r.len() ==> instrument_lt(readings_key(#[trigger] r[i]), readings_key(#[trigger] r[j]))
    &&& forall|i: int| 0 <= i < r.len() ==> readings_ok(#[trigger] r[i], evs) && has_reading(evs, readings_key(r[i]))
    &&& forall|k: (Venue, Seq<char>)| has_reading(evs, k) ==> exists|i: int| 0 <= i < r.len() && readings_key(#[trigger] r[i]) == k
}

proof fn lemma_no_reading(evs: Seq<Event>, k: (Venue, Seq<char>))
    requires
        !has_reading(evs, k),
    ensures
        delays_of(evs, k).len() == 0,
        missing_of(evs, k, 0) == 0,
        missing_of(evs, k, 1) == 0,
        missing_of(evs, k, 2) == 0,
    decreases evs.len(),
{
    if evs.len() > 0 {
        let d = evs.drop_last();
        assert(!has_reading(d, k)) by {
            if has_reading(d, k) {
                let i = choose|i: int| 0 <= i < d.len() && md_key(#[trigger] d[i]) == Some(k) && reading_of(d[i]) != ProbeReading::NotSampled;
                assert(evs[i] == d[i]);
            }
        }
        lemma_no_reading(d, k);
        assert(evs.last() == evs[evs.len() - 1]);
    }
}

proof fn lemma_missing_le(evs: Seq<Event>, k: (Venue, Seq<char>), code: u8)
    ensures
        missing_of(evs, k, code) <= evs.len(),
    decreases evs.len(),
{
    if evs.len() > 0 {
        lemma_missing_le(evs.drop_last(), k, code);
    }
}

/// An event without a reading changes no instrument's readings.
proof fn lemma_reading_unchanged(pre: Seq<Event>, post: Seq<Event>, out: Seq<InstrumentReadings>)
    requires
        post.len() == pre.len() + 1,
        post.drop_last() == pre,
        reading_of(post.last()) == ProbeReading::NotSampled,
        grouping_ok(out, pre),
    ensures
        grouping_ok(out, post),
{
    assert forall|k: (Venue, Seq<char>)| has_reading(post, k) implies has_reading(pre, k) by {
        let i = choose|i: int| 0 <= i < post.len() && md_key(#[trigger] post[i]) == Some(k) && reading_of(post[i]) != ProbeReading::NotSampled;
        assert(i < pre.len());
        assert(pre[i] == post[i]);
    }
    assert forall|q: int| 0 <= q < out.len() implies readings_ok(#[trigger] out[q], post) && has_reading(post, readings_key(out[q])) by {
        let k = readings_key(out[q]);
        assert(has_reading(pre, k));
        let i = choose|i: int| 0 <= i < pre.len() && md_key(#[trigger] pre[i]) == Some(k) && reading_of(pre[i]) != ProbeReading::NotSampled;
        assert(post[i] == pre[i]);
    }
}

/// An event with a reading of instrument `k` updates `k`'s entry at `p` and no other.
proof fn lemma_reading_updated(pre: Seq<Event>, post: Seq<Event>, before: Seq<InstrumentReadings>, after: Seq<InstrumentReadings>, p: int, k: (Venue, Seq<char>))
    requires
        post.len() == pre.len() + 1,
        post.drop_last() == pre,
        md_key(post.last()) == Some(k),
        reading_of(post.last()) != ProbeReading::NotSampled,
        grouping_ok(before, pre),
        0 <= p < before.len(),
        after.len() == before.len(),
        readings_key(after[p]) == k,
        readings_key(before[p]) == k,
        readings_ok(after[p], post),
        forall|q: int| 0 <= q < after.len() && q != p ==> after[q] == before[q],
    ensures
        grouping_ok(after, post),
{
    let n = pre.len() as int;
    assert(post[n] == post.last());
    assert forall|i: int, j: int| 0 <= i < j < after.len() implies instrument_lt(readings_key(#[trigger] after[i]), readings_key(#[trigger] after[j])) by {
        assert(instrument_lt(readings_key(before[i]), readings_key(before[j])));
    }
    assert forall|q: int| 0 <= q < after.len() implies readings_ok(#[trigger] after[q], post) && has_reading(post, readings_key(after[q])) by {
        if q != p {
            let kq = readings_key(before[q]);
            assert(readings_ok(before[q], pre) && has_reading(pre, kq));
            assert(instrument_lt(kq, k) || instrument_lt(k, kq)) by {
                if q < p { assert(instrument_lt(readings_key(before[q]), readings_key(before[p]))); }
                else { assert(instrument_lt(readings_key(before[p]), readings_key(before[q]))); }
            }
            lemma_instrument_order(kq, k, k);
            lemma_instrument_order(k, k, k);
            assert(kq != k);
            let i = choose|i: int| 0 <= i < pre.len() && md_key(#[trigger] pre[i]) == Some(kq) && reading_of(pre[i]) != ProbeReading::NotSampled;
            assert(post[i] == pre[i]);
        }
    }
    assert forall|k2: (Venue, Seq<char>)| has_reading(post, k2) implies exists|q: int| 0 <= q < after.len() && readings_key(#[trigger] after[q]) == k2 by {
        if k2 == k {
            assert(readings_key(after[p]) == k2);
        } else {
            let i = choose|i: int| 0 <= i < post.len() && md_key(#[trigger] post[i]) == Some(k2) && reading_of(post[i]) != ProbeReading::NotSampled;
            assert(i != n);
            assert(pre[i] == post[i]);
            assert(has_reading(pre, k2));
            let q = choose|q: int| 0 <= q < before.len() && readings_key(#[trigger] before[q]) == k2;
            assert(q != p);
            assert(readings_key(after[q]) == k2);
        }
    }
}

/// An event with the first reading of instrument `k` adds its entry at `p`, in instrument
/// order.
proof fn lemma_reading_added(pre: Seq<Event>, post: Seq<Event>, before: Seq<InstrumentReadings>, after: Seq<InstrumentReadings>, p: int, k: (Venue, Seq<char>))
    requires
        post.len() == pre.len() + 1,
        post.drop_last() == pre,
        md_key(post.last()) == Some(k),
        reading_of(post.last()) != ProbeReading::NotSampled,
        grouping_ok(before, pre),
        !has_reading(pre, k),
        0 <= p <= before.len(),
        forall|q: int| 0 <= q < p ==> instrument_lt(readings_key(#[trigger] before[q]), k),
        p < before.len() ==> instrument_lt(k, readings_key(before[p])),
        after.len() == before.len() + 1,
        readings_key(after[p]) == k,
        readings_ok(after[p], post),
        forall|q: int| 0 <= q < p ==> after[q] == before[q],
        forall|q: int| p < q < after.len() ==> after[q] == before[q - 1],
    ensures
        grouping_ok(after, post),
{
    let n = pre.len() as int;
    assert(post[n] == post.last());
    assert forall|i: int, j: int| 0 <= i < j < after.len() implies instrument_lt(readings_key(#[trigger] after[i]), readings_key(#[trigger] after[j])) by {
        if j < p {
            assert(instrument_lt(readings_key(before[i]), readings_key(before[j])));
        } else if j == p {
        } else if i < p {
            assert(after[j] == before[j - 1]);
            if j - 1 == p {
                lemma_instrument_order(readings_key(before[i]), k, readings_key(before[p]));
            } else {
                assert(instrument_lt(readings_key(before[p]), readings_key(before[j - 1])));
                lemma_instrument_order(readings_key(before[i]), k, readings_key(before[p]));
                lemma_instrument_order(readings_key(before[i]), readings_key(before[p]), readings_key(before[j - 1]));
            }
        } else if i == p {
            assert(after[j] == before[j - 1]);
            if j - 1 > p {
                assert(instrument_lt(readings_key(before[p]), readings_key(before[j - 1])));
                lemma_instrument_order(k, readings_key(before[p]), readings_key(before[j - 1]));
            }
        } else {
            assert(after[i] == before[i - 1] && after[j] == before[j - 1]);
            assert(instrument_lt(readings_key(before[i - 1]), readings_key(before[j - 1])));
        }
    }
    assert forall|q: int| 0 <= q < after.len() implies readings_ok(#[trigger] after[q], post) && has_reading(post, readings_key(after[q])) by {
        if q != p {
            let b = if q < p { q } else { q - 1 };
            assert(after[q] == before[b]);
            let kq = readings_key(before[b]);
            assert(readings_ok(before[b], pre) && has_reading(pre, kq));
            assert(kq != k);
            let i = choose|i: int| 0 <= i < pre.len() && md_key(#[trigger] pre[i]) == Some(kq) && reading_of(pre[i]) != ProbeReading::NotSampled;
            assert(post[i] == pre[i]);
        }
    }
    assert forall|k2: (Venue, Seq<char>)| has_reading(post, k2) implies exists|q: int| 0 <= q < after.len() && readings_key(#[trigger] after[q]) == k2 by {
        if k2 == k {
            assert(readings_key(after[p]) == k2);
        } else {
            let i = choose|i: int| 0 <= i < post.len() && md_key(#[trigger] post[i]) == Some(k2) && reading_of(post[i]) != ProbeReading::NotSampled;
            assert(i != n);
            assert(pre[i] == post[i]);
            assert(has_reading(pre, k2));
            let q = choose|q: int| 0 <= q < before.len() && readings_key(#[trigger] before[q]) == k2;
            if q < p {
                assert(readings_key(after[q]) == k2);
            } else {
                assert(after[q + 1] == before[q]);
                assert(readings_key(after[q + 1]) == k2);
            }
        }
    }
}

/// Group the readings of the events by instrument (see `grouping_ok`).
pub fn group_readings(events: &Vec<Event>) -> (r: Vec<InstrumentReadings>)
    requires
        forall|i: int| 0 <= i < events@.len() ==> reading_fits(#[trigger] events@[i]),
    ensures
        grouping_ok(r@, events@),
{
    let mut out: Vec<InstrumentReadings> = Vec::new();
    let mut i: usize = 0;
    proof {
        assert forall|k: (Venue, Seq<char>)| has_reading(events@.subrange(0, 0), k) implies exists|q: int|
            0 <= q < out@.len() && readings_key(#[trigger] out@[q]) == k by {}
    }
    while i < events.len()
        invariant
            i <= events@.len(),
            forall|q: int| 0 <= q < events@.len() ==> reading_fits(#[trigger] events@[q]),
            grouping_ok(out@, events@.subrange(0, i as int)),
        decreases events@.len() - i,
    {
        let ghost pre = events@.subrange(0, i as int);
        let ghost post = events@.subrange(0, i as int + 1);
        let ev = &events[i];
        proof {
            assert(post.drop_last() =~= pre);
            assert(post.last() == events@[i as int]);
            assert forall|q: int| 0 <= q < pre.len() implies #[trigger] post[q] == pre[q] by {}
        }
        let reading = probe_reading(ev);
        let md = match &ev.kind {
            EventKind::Md(md) => md,
            EventKind::Sys(_) => {
                proof { lemma_reading_unchanged(pre, post, out@); }
                i = i + 1;
                continue;
            },
        };
        if reading == ProbeReading::NotSampled {
            proof { lemma_reading_unchanged(pre, post, out@); }
            i = i + 1;
            continue;
        }
        let ghost k = (md.venue, md.symbol@);
        let mut p: usize = 0;
        while p < out.len() && instrument_lt_exec(out[p].venue, out[p].symbol.as_str(), md.venue, md.symbol.as_str())
            invariant
                p <= out@.len(),
                k == (md.venue, md.symbol@),
                forall|q: int| 0 <= q < p ==> instrument_lt(readings_key(#[trigger] out@[q]), k),
            decreases out@.len() - p,
        {
            p = p + 1;
        }
        let found = p < out.len() && out[p].venue == md.venue && crate::signals::str_eq(out[p].symbol.as_str(), md.symbol.as_str());
        let ghost before = out@;
        proof {
            lemma_missing_le(pre, k, 0);
            lemma_missing_le(pre, k, 1);
            lemma_missing_le(pre, k, 2);
        }
        if found {
            let mut e = out.remove(p);
            assert(readings_key(e) == k);
            assert(readings_ok(e, pre));
            match reading {
                ProbeReading::Delay(ns) => { e.delays.push(ns); },
                ProbeReading::MissingStamp(code) => {
                    if code == 0 { e.missing_trade = e.missing_trade + 1; }
                    else if code == 1 { e.missing_snapshot = e.missing_snapshot + 1; }
                    else { e.missing_funding = e.missing_funding + 1; }
                },
                ProbeReading::NotSampled => {},
            }
            out.insert(p, e);
            proof { lemma_reading_updated(pre, post, before, out@, p as int, k); }
        } else {
            proof {
                if has_reading(pre, k) {
                    let q = choose|q: int| 0 <= q < before.len() && readings_key(#[trigger] before[q]) == k;
                    if q < p as int {
                        lemma_instrument_order(k, k, k);
                    } else if q > p as int {
                        assert(instrument_lt(readings_key(before[p as int]), readings_key(before[q])));
                        lemma_instrument_order(readings_key(before[p as int]), k, k);
                    }
                }
                lemma_no_reading(pre, k);
            }
            let mut e = InstrumentReadings {
                venue: md.venue,
                symbol: md.symbol.as_str().to_owned(),
                delays: Vec::new(),
                missing_trade: 0,
                missing_snapshot: 0,
                missing_funding: 0,
            };
            match reading {
                ProbeReading::Delay(ns) => { e.delays.push(ns); },
                ProbeReading::MissingStamp(code) => {
                    if code == 0 { e.missing_trade = 1; }
                    else if code == 1 { e.missing_snapshot = 1; }
                    else { e.missing_funding = 1; }
                },
                ProbeReading::NotSampled => {},
            }
            proof {
                if (p as int) < before.len() {
                    lemma_instrument_order(readings_key(before[p as int]), k, k);
                }
                assert(delays_of(post, k) == delays_of(pre, k) + match reading { ProbeReading::Delay(ns) => seq![ns], _ => Seq::<u64>::empty() });
                assert(readings_key(e) == k);
                assert(readings_ok(e, post));
            }
            out.insert(p, e);
            proof { lemma_reading_added(pre, post, before, out@, p as int, k); }
        }
        i = i + 1;
    }
    assert(events@.subrange(0, events@.len() as int) =~= events@);
    out
}

} // verus!
