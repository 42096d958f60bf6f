//! Recording gaps as a first-class artifact. A metric computed over holes in the data lies
//! silently (missing minutes look like a quiet market), so every report must cite the gap
//! artifact of its epoch.
//!
//! A gap is a pause between two consecutive journal events longer than the threshold; its
//! duration is the plain wall-clock difference of the two events. A gap between a
//! connection-down and a connection-up event is a regular reconnect; any other gap is a
//! silent loss of recording.

use vstd::prelude::*;

use crate::bucket::trunc_div;
use crate::market::{Event, EventKind, SysEvent, PRICE_SCALE};
use crate::types::RcError;

verus! {

pub const GAP_REPORT_SCHEMA_VERSION: u32 = 1;

/// Default gap threshold (ms): the stream brings events every fraction of a second, so
/// five seconds of silence is a hole, not the market.
pub const DEFAULT_GAP_THRESHOLD_MS: i64 = 5_000;

/// One recording gap.
#[derive(Clone, Copy, Debug, PartialEq, Eq, Structural)]
pub struct Gap {
    /// Last event before the gap.
    pub from_seq: u64,
    pub from_wall_ms: i64,
    /// First event after the gap.
    pub to_seq: u64,
    pub to_wall_ms: i64,
    pub duration_ms: i64,
    /// The gap lies between a connection-down and a connection-up event (a regular
    /// reconnect), not a plain hole.
    pub bounded_by_conn_events: bool,
}

/// The gap artifact (deterministic: no field about when it was generated).
#[derive(Clone, Debug, PartialEq, Eq)]
pub struct GapReport {
    pub schema_version: u32,
    /// Epochs the report covers.
    pub epoch_ids: Vec<String>,
    pub events_total: u64,
    pub first_wall_ms: i64,
    pub last_wall_ms: i64,
    /// Pauses longer than this are gaps.
    pub gap_threshold_ms: i64,
    pub gaps: Vec<Gap>,
    pub gap_total_ms: i64,
    /// Share of the window covered by data ×1e8: `(span − gap_total) / span`.
    pub coverage_e8: i64,
}

/// What an event says about the recorder's connection.
#[derive(Clone, Copy, Debug, PartialEq, Eq, Structural)]
pub enum ConnMark {
    Data,
    ConnDown,
    ConnUp,
}

/// What the gap scan reads of an event.
#[derive(Clone, Copy, Debug, PartialEq, Eq, Structural)]
pub struct GapMark {
    pub seq: u64,
    pub ts_wall_ms: i64,
    pub conn: ConnMark,
}

/// The gap scan's reading of an event.
pub fn gap_mark(ev: &Event) -> (r: GapMark)
    ensures
        r.seq == ev.seq,
        r.ts_wall_ms == ev.ts_wall_ms,
        r.conn == match ev.kind {
            EventKind::Sys(SysEvent::ConnDown(_)) => ConnMark::ConnDown,
            EventKind::Sys(SysEvent::ConnUp(_)) => ConnMark::ConnUp,
            _ => ConnMark::Data,
        },
{
    let conn = match &ev.kind {
        EventKind::Sys(SysEvent::ConnDown(_)) => ConnMark::ConnDown,
        EventKind::Sys(SysEvent::ConnUp(_)) => ConnMark::ConnUp,
        _ => ConnMark::Data,
    };
    GapMark { seq: ev.seq, ts_wall_ms: ev.ts_wall_ms, conn }
}

/// The pause between two consecutive events exceeds the threshold.
pub open spec fn is_gap(a: GapMark, b: GapMark, threshold: i64) -> bool {
    b.ts_wall_ms - a.ts_wall_ms > threshold
}

/// The gap between two consecutive events.
pub open spec fn gap_between(a: GapMark, b: GapMark) -> Gap {
    Gap {
        from_seq: a.seq,
        from_wall_ms: a.ts_wall_ms,
        to_seq: b.seq,
        to_wall_ms: b.ts_wall_ms,
        duration_ms: (b.ts_wall_ms - a.ts_wall_ms) as i64,
        bounded_by_conn_events: a.conn == ConnMark::ConnDown && b.conn == ConnMark::ConnUp,
    }
}

/// The gaps of a stream of events, in stream order.
pub open spec fn gaps_spec(m: Seq<GapMark>, threshold: i64) -> Seq<Gap>
    decreases m.len(),
{
    if m.len() < 2 {
        Seq::empty()
    } else {
        let g = gaps_spec(m.drop_last(), threshold);
        let a = m[m.len() - 2];
        let b = m[m.len() - 1];
        if is_gap(a, b, threshold) {
            g.push(gap_between(a, b))
        } else {
            g
        }
    }
}

/// Sum of the gaps' durations.
pub open spec fn gap_total(gs: Seq<Gap>) -> int
    decreases gs.len(),
{
    if gs.len() == 0 {
        0
    } else {
        gap_total(gs.drop_last()) + gs.last().duration_ms
    }
}

/// Coverage ×1e8 of a window: `(span − gap_total) · 1e8 / span` with Rust division,
/// narrowed to `i64`; a window of no length is fully covered.
pub open spec fn coverage_spec(first: i64, last: i64, total: int) -> i64 {
    let span = last - first;
    if span <= 0 {
        PRICE_SCALE
    } else {
        trunc_div((span - total) * PRICE_SCALE, span) as i64
    }
}

/// Every prefix of the stream keeps its gap durations and their running total in `i64`.
pub open spec fn gaps_fit(m: Seq<GapMark>, threshold: i64) -> bool {
    &&& m.len() < u64::MAX
    &&& forall|k: int| 2 <= k <= m.len() ==> (is_gap(#[trigger] m[k - 2], m[k - 1], threshold) ==> {
        &&& m[k - 1].ts_wall_ms - m[k - 2].ts_wall_ms <= i64::MAX
        &&& i64::MIN <= gap_total(gaps_spec(m.subrange(0, k), threshold)) <= i64::MAX
    })
}

/// The report of a stream of events.
pub open spec fn report_matches(r: GapReport, m: Seq<GapMark>, epoch_ids: Seq<String>, threshold: i64) -> bool {
    let gs = gaps_spec(m, threshold);
    let first = if m.len() > 0 { m[0].ts_wall_ms } else { 0 };
    let last = if m.len() > 0 { m.last().ts_wall_ms } else { 0 };
    &&& r.schema_version == GAP_REPORT_SCHEMA_VERSION
    &&& r.epoch_ids@ == epoch_ids
    &&& r.events_total == m.len()
    &&& r.first_wall_ms == first
    &&& r.last_wall_ms == last
    &&& r.gap_threshold_ms == threshold
    &&& r.gaps@ == gs
    &&& r.gap_total_ms == gap_total(gs)
    &&& r.coverage_e8 == coverage_spec(first, last, gap_total(gs))
}

/// Streaming gap scan: events are pushed one by one (memory does not grow with the
/// journal, only with the gaps found), and `finish` gives the report.
pub struct GapScanner {
    threshold: i64,
    count: u64,
    first_wall: i64,
    prev: Option<GapMark>,
    gaps: Vec<Gap>,
    total: i64,
    seen: Ghost<Seq<GapMark>>,
}

impl GapScanner {
    /// Events pushed so far.
    pub closed spec fn marks(&self) -> Seq<GapMark> {
        self.seen@
    }

    pub closed spec fn threshold(&self) -> i64 {
        self.threshold
    }

    pub closed spec fn wf(&self) -> bool {
        let m = self.seen@;
        &&& self.count == m.len()
        &&& (m.len() == 0) == (self.prev is None)
        &&& m.len() > 0 ==> self.prev == Some(m.last()) && self.first_wall == m[0].ts_wall_ms
        &&& self.gaps@ == gaps_spec(m, self.threshold)
        &&& self.total == gap_total(gaps_spec(m, self.threshold))
    }

    /// The next event keeps the scan inside its integer ranges.
    pub closed spec fn accepts(&self, next: GapMark) -> bool {
        let m = self.seen@.push(next);
        &&& self.count < u64::MAX
        &&& self.seen@.len() > 0 ==> (is_gap(self.seen@.last(), next, self.threshold) ==> {
            &&& next.ts_wall_ms - self.seen@.last().ts_wall_ms <= i64::MAX
            &&& i64::MIN <= gap_total(gaps_spec(m, self.threshold)) <= i64::MAX
        })
    }

    /// A scan with the given gap threshold and no events yet.
    pub fn new(gap_threshold_ms: i64) -> (r: Self)
        ensures
            r.wf(),
            r.marks().len() == 0,
            r.threshold() == gap_threshold_ms,
    {
        GapScanner {
            threshold: gap_threshold_ms,
            count: 0,
            first_wall: 0,
            prev: None,
            gaps: Vec::new(),
            total: 0,
            seen: Ghost(Seq::empty()),
        }
    }

    /// Take the next event of the stream.
    pub fn push(&mut self, next: GapMark)
        requires
            old(self).wf(),
            old(self).accepts(next),
        ensures
            final(self).wf(),
            final(self).marks() == old(self).marks().push(next),
            final(self).threshold() == old(self).threshold(),
    {
        let ghost m0 = self.seen@;
        let ghost m1 = m0.push(next);
        assert(m1.drop_last() =~= m0);
        match self.prev {
            None => {
                self.first_wall = next.ts_wall_ms;
            },
            Some(a) => {
                assert(m1[m1.len() - 2] == a);
                let diff: i128 = next.ts_wall_ms as i128 - a.ts_wall_ms as i128;
                if diff > self.threshold as i128 {
                    let d = diff as i64;
                    let g = Gap {
                        from_seq: a.seq,
                        from_wall_ms: a.ts_wall_ms,
                        to_seq: next.seq,
                        to_wall_ms: next.ts_wall_ms,
                        duration_ms: d,
                        bounded_by_conn_events: a.conn == ConnMark::ConnDown && next.conn == ConnMark::ConnUp,
                    };
                    assert(g == gap_between(a, next));
                    let ghost gs1 = gaps_spec(m1, self.threshold);
                    assert(gs1 == gaps_spec(m0, self.threshold).push(g));
                    assert(gs1.drop_last() =~= gaps_spec(m0, self.threshold));
                    self.gaps.push(g);
                    self.total = self.total + d;
                }
            },
        }
        self.count = self.count + 1;
        self.prev = Some(next);
        self.seen = Ghost(m1);
    }

    /// The report of the events pushed, for the given epochs.
    pub fn finish(self, epoch_ids: Vec<String>) -> (r: GapReport)
        requires
            self.wf(),
        ensures
            report_matches(r, self.marks(), epoch_ids@, self.threshold()),
    {
        let (first, last) = match self.prev {
            Some(p) => (self.first_wall, p.ts_wall_ms),
            None => (0i64, 0i64),
        };
        let span: i128 = last as i128 - first as i128;
        let coverage: i64 = if span <= 0 {
            PRICE_SCALE
        } else {
            let covered: i128 = span - self.total as i128;
            assert(-0x4_0000_0000_0000_0000 * 0x1_0000_0000 <= covered * PRICE_SCALE <= 0x4_0000_0000_0000_0000 * 0x1_0000_0000) by (nonlinear_arith)
                requires -0x4_0000_0000_0000_0000 <= covered <= 0x4_0000_0000_0000_0000;
            let q: i128 = covered * (PRICE_SCALE as i128) / span;
            q as i64
        };
        GapReport {
            schema_version: GAP_REPORT_SCHEMA_VERSION,
            epoch_ids,
            events_total: self.count,
            first_wall_ms: first,
            last_wall_ms: last,
            gap_threshold_ms: self.threshold,
            gaps: self.gaps,
            gap_total_ms: self.total,
            coverage_e8: coverage,
        }
    }
}

/// Gaps of a journal read into memory, in stream order (see `GapScanner` for the
/// streaming form).
pub fn gaps(marks: &Vec<GapMark>, epoch_ids: Vec<String>, gap_threshold_ms: i64) -> (r: GapReport)
    requires
        gaps_fit(marks@, gap_threshold_ms),
    ensures
        report_matches(r, marks@, epoch_ids@, gap_threshold_ms),
{
    let mut scan = GapScanner::new(gap_threshold_ms);
    let mut i: usize = 0;
    while i < marks.len()
        invariant
            i <= marks@.len(),
            gaps_fit(marks@, gap_threshold_ms),
            scan.wf(),
            scan.threshold() == gap_threshold_ms,
            scan.marks() == marks@.subrange(0, i as int),
        decreases marks@.len() - i,
    {
        proof {
            let m1 = marks@.subrange(0, i as int + 1);
            assert(scan.marks().push(marks@[i as int]) =~= m1);
            if i > 0 {
                let k = i as int + 1;
                assert(m1[m1.len() - 2] == marks@[k - 2]);
                assert(marks@.subrange(0, k) == m1);
            }
        }
        scan.push(marks[i]);
        i = i + 1;
    }
    assert(marks@.subrange(0, marks@.len() as int) =~= marks@);
    scan.finish(epoch_ids)
}

/// File name of the gap artifact: `gaps-<epoch>.json` after the report's first epoch. A
/// report that names no epoch cannot be cited and is `CorruptInput`.
pub fn gap_artifact_name(report: &GapReport) -> (r: Result<String, RcError>)
    ensures
        report.epoch_ids@.len() == 0 <==> r is Err,
        r matches Err(e) ==> e is CorruptInput,
        r matches Ok(name) ==> name@ == "gaps-"@ + report.epoch_ids@[0]@ + ".json"@,
{
    if report.epoch_ids.len() == 0 {
        return Err(RcError::CorruptInput("gap report names no epoch".to_owned()));
    }
    let mut name = "gaps-".to_owned();
    name.append(report.epoch_ids[0].as_str());
    name.append(".json");
    Ok(name)
}

/// Wall-clock times never go back along the stream.
pub open spec fn wall_nondecreasing(m: Seq<GapMark>) -> bool {
    forall|k: int| 1 <= k < m.len() ==> (#[trigger] m[k - 1]).ts_wall_ms <= m[k].ts_wall_ms
}

proof fn lemma_gap_total_within_span(m: Seq<GapMark>, threshold: i64)
    requires
        threshold >= 0,
        wall_nondecreasing(m),
        forall|k: int| 2 <= k <= m.len() ==> (is_gap(#[trigger] m[k - 2], m[k - 1], threshold)
            ==> m[k - 1].ts_wall_ms - m[k - 2].ts_wall_ms <= i64::MAX),
    ensures
        0 <= gap_total(gaps_spec(m, threshold)),
        m.len() > 0 ==> gap_total(gaps_spec(m, threshold)) <= m.last().ts_wall_ms - m[0].ts_wall_ms,
        m.len() == 0 ==> gap_total(gaps_spec(m, threshold)) == 0,
    decreases m.len(),
{
    if m.len() >= 2 {
        let d = m.drop_last();
        assert forall|k: int| 1 <= k < d.len() implies (#[trigger] d[k - 1]).ts_wall_ms <= d[k].ts_wall_ms by {
            assert(d[k - 1] == m[k - 1] && d[k] == m[k]);
            assert(m[k - 1].ts_wall_ms <= m[k].ts_wall_ms);
        }
        assert forall|k: int| 2 <= k <= d.len() implies (is_gap(#[trigger] d[k - 2], d[k - 1], threshold)
            ==> d[k - 1].ts_wall_ms - d[k - 2].ts_wall_ms <= i64::MAX) by {
            assert(d[k - 2] == m[k - 2] && d[k - 1] == m[k - 1]);
        }
        lemma_gap_total_within_span(d, threshold);
        let a = m[m.len() - 2];
        let b = m[m.len() - 1];
        assert(d.last() == a && d[0] == m[0] && m.last() == b);
        assert(a.ts_wall_ms <= b.ts_wall_ms);
        let g = gaps_spec(d, threshold);
        if is_gap(a, b, threshold) {
            assert(b.ts_wall_ms - a.ts_wall_ms <= i64::MAX);
            assert(g.push(gap_between(a, b)).drop_last() =~= g);
        }
    }
}

/// Coverage is a share of the window: on a stream whose wall clock never goes back, with a
/// non-negative threshold and the scan's sums inside `i64`, the gaps add up to no more than
/// the window, and the coverage lies between 0 and 1e8.
pub proof fn law_coverage_is_a_share(m: Seq<GapMark>, threshold: i64)
    requires
        gaps_fit(m, threshold),
        threshold >= 0,
        wall_nondecreasing(m),
    ensures
        0 <= gap_total(gaps_spec(m, threshold)),
        m.len() > 0 ==> gap_total(gaps_spec(m, threshold)) <= m.last().ts_wall_ms - m[0].ts_wall_ms,
        ({
            let first = if m.len() > 0 { m[0].ts_wall_ms } else { 0 };
            let last = if m.len() > 0 { m.last().ts_wall_ms } else { 0 };
            0 <= coverage_spec(first, last, gap_total(gaps_spec(m, threshold))) <= PRICE_SCALE
        }),
{
    lemma_gap_total_within_span(m, threshold);
    let first = if m.len() > 0 { m[0].ts_wall_ms } else { 0 };
    let last = if m.len() > 0 { m.last().ts_wall_ms } else { 0 };
    let total = gap_total(gaps_spec(m, threshold));
    let span = last - first;
    if span > 0 {
        let num = (span - total) * PRICE_SCALE;
        assert(0 <= num <= span * PRICE_SCALE) by (nonlinear_arith)
            requires 0 <= span - total <= span, PRICE_SCALE == 100_000_000, num == (span - total) * PRICE_SCALE;
        vstd::arithmetic::div_mod::lemma_div_is_ordered(num, span * PRICE_SCALE, span);
        vstd::arithmetic::div_mod::lemma_div_is_ordered(0, num, span);
        assert((span * PRICE_SCALE) / span == PRICE_SCALE) by (nonlinear_arith)
            requires span > 0;
    }
}

} // verus!
