//! Latency drawn from measured distributions only. Sampling is the inverse empirical CDF at
//! a uniform number from SplitMix64 (index `floor(u · len)`), so a fixed seed gives a fixed
//! draw. An instrument without a table entry is an error, never a default latency.

use vstd::prelude::*;

use crate::market::Venue;
use crate::signals::str_eq;
use crate::sim::fees::{has_non_whitespace, is_non_blank};
use crate::sim::rng::{splitmix_advance, splitmix_mix, SplitMix64};
use crate::sim::types::SimError;

verus! {

/// 2^53: the precision of an `f64` mantissa.
pub const F64_MANTISSA_SPAN: u64 = 0x20_0000_0000_0000;

/// One latency draw, in nanoseconds.
#[derive(Clone, Copy, Debug, PartialEq, Eq, Structural)]
pub struct LatencyDraw {
    pub delta_submit_ns: u64,
    pub delta_cancel_ns: u64,
    pub delta_md_ns: u64,
}

/// Measured latency samples of one instrument, with the method of measurement.
#[derive(Clone, Debug, PartialEq, Eq)]
pub struct LatencyArtifact {
    pub schema_version: u32,
    pub venue: Venue,
    pub symbol: String,
    /// How the samples were measured; an empty provenance is rejected.
    pub provenance: String,
    pub delta_submit_ns: Vec<u64>,
    pub delta_cancel_ns: Vec<u64>,
    pub delta_md_ns: Vec<u64>,
}

/// The unit a number is rounded to when it is held in 53 significant bits: 1 below 2^53,
/// doubling with every further bit.
pub open spec fn round_unit(x: nat) -> nat
    decreases x,
{
    if x < F64_MANTISSA_SPAN {
        1
    } else {
        2 * round_unit(x / 2)
    }
}

/// `x` rounded to 53 significant bits, to the nearest multiple of its unit, a tie going
/// to the even multiple: the value an `f64` holds for `x`.
pub open spec fn round53(x: nat) -> nat {
    let p = round_unit(x);
    let q = x / p;
    let r = x % p;
    if p == 1 {
        x
    } else if r > p / 2 || (r == p / 2 && q % 2 == 1) {
        (q + 1) * p
    } else {
        q * p
    }
}

/// Index drawn from a sample list of length `len` with the 64-bit random value `v`: the
/// uniform `u = (v >> 11) / 2^53`, then `floor(u · len)` as `f64` arithmetic gives it,
/// kept below `len`.
pub open spec fn sample_index(v: u64, len: nat) -> nat {
    let m = (v >> 11u64) as nat;
    let i = round53(m * len) / (F64_MANTISSA_SPAN as nat);
    if i < len { i } else { (len - 1) as nat }
}

proof fn lemma_round_unit_pos(x: nat)
    ensures
        round_unit(x) >= 1,
    decreases x,
{
    if x >= F64_MANTISSA_SPAN {
        lemma_round_unit_pos(x / 2);
    }
}

/// Exact integer form of `((v >> 11) as f64 / 2^53 * len as f64) as usize`, capped at
/// `len − 1`.
pub fn sample_index_of(v: u64, len: usize) -> (r: usize)
    requires
        0 < len <= F64_MANTISSA_SPAN,
    ensures
        r == sample_index(v, len as nat),
        r < len,
{
    let m: u64 = v >> 11;
    assert(v >> 11u64 <= u64::MAX >> 11u64) by (bit_vector);
    assert(u64::MAX >> 11u64 < F64_MANTISSA_SPAN) by (bit_vector);
    assert((m as int) * (len as int) < (F64_MANTISSA_SPAN as int) * (F64_MANTISSA_SPAN as int)) by (nonlinear_arith)
        requires m < F64_MANTISSA_SPAN, len <= F64_MANTISSA_SPAN;
    let x: u128 = m as u128 * len as u128;
    let span: u128 = F64_MANTISSA_SPAN as u128;
    let mut t: u128 = x;
    let mut p: u128 = 1;
    proof {
        lemma_round_unit_pos(x as nat);
    }
    while t >= span
        invariant
            span == F64_MANTISSA_SPAN,
            x < F64_MANTISSA_SPAN as int * F64_MANTISSA_SPAN as int,
            p >= 1,
            p <= 2 * F64_MANTISSA_SPAN,
            t == x / p,
            p * t <= x,
            round_unit(x as nat) == p * round_unit(t as nat),
        decreases t,
    {
        proof {
            vstd::arithmetic::div_mod::lemma_div_denominator(x as int, p as int, 2);
            assert(p < F64_MANTISSA_SPAN) by (nonlinear_arith)
                requires p * t <= x, t >= F64_MANTISSA_SPAN,
                    x < F64_MANTISSA_SPAN as int * F64_MANTISSA_SPAN as int, p >= 1;
            assert((2 * p) * (t / 2) <= p * t) by (nonlinear_arith) requires p >= 1, t >= 0;
            assert(round_unit(t as nat) == 2 * round_unit((t / 2) as nat));
            assert(p * (2 * round_unit((t / 2) as nat)) == (2 * p) * round_unit((t / 2) as nat)) by (nonlinear_arith);
        }
        t = t / 2;
        p = p * 2;
    }
    assert(round_unit(t as nat) == 1);
    let q = t;
    let rem = x % p;
    let half = p / 2;
    let up = p > 1 && (rem > half || (rem == half && q % 2 == 1));
    proof {
        assert((q + 1) * p <= x + p) by (nonlinear_arith) requires p * q <= x;
        assert(q * p <= x) by (nonlinear_arith) requires p * q <= x;
        let ru = round_unit(x as nat);
        let rt = round_unit(t as nat);
        assert(ru == p) by (nonlinear_arith) requires ru == p * rt, rt == 1;
    }
    let rounded: u128 = if up { (q + 1) * p } else { q * p };
    proof {
        if p == 1 {
            assert(q * p == x) by (nonlinear_arith) requires p == 1, q == x / p;
        }
    }
    assert(x as nat == (v >> 11u64) as nat * len as nat);
    assert(rounded == round53(x as nat));
    let idx: u128 = rounded / span;
    if idx < len as u128 {
        idx as usize
    } else {
        len - 1
    }
}

/// Measured distributions per `(venue, symbol)`.
#[derive(Clone, Debug)]
pub struct LatencyTable {
    entries: Vec<LatencyArtifact>,
}

/// The key of an entry.
pub open spec fn entry_key(a: LatencyArtifact) -> (Venue, Seq<char>) {
    (a.venue, a.symbol@)
}

/// The sample lists of an entry: submit, cancel, market data.
pub open spec fn entry_samples(a: LatencyArtifact) -> (Seq<u64>, Seq<u64>, Seq<u64>) {
    (a.delta_submit_ns@, a.delta_cancel_ns@, a.delta_md_ns@)
}

/// A sample list that can be drawn from.
pub open spec fn drawable_samples(s: Seq<u64>) -> bool {
    0 < s.len() <= F64_MANTISSA_SPAN
}

/// Keys of the entries are pairwise distinct.
pub open spec fn keys_distinct_seq(e: Seq<LatencyArtifact>) -> bool {
    forall|i: int, j: int| 0 <= i < j < e.len() ==> entry_key(#[trigger] e[i]) != entry_key(#[trigger] e[j])
}

/// The value `f` of each instrument's entry.
pub open spec fn keyed<V>(e: Seq<LatencyArtifact>, f: spec_fn(LatencyArtifact) -> V) -> Map<(Venue, Seq<char>), V> {
    Map::new(
        |k: (Venue, Seq<char>)| exists|i: int| 0 <= i < e.len() && entry_key(e[i]) == k,
        |k: (Venue, Seq<char>)| f(e[choose|i: int| 0 <= i < e.len() && entry_key(e[i]) == k]),
    )
}

/// Schema version and provenance of an entry.
pub open spec fn entry_meta(a: LatencyArtifact) -> (u32, Seq<char>) {
    (a.schema_version, a.provenance@)
}

proof fn lemma_keyed_set<V>(e: Seq<LatencyArtifact>, i: int, a: LatencyArtifact, f: spec_fn(LatencyArtifact) -> V)
    requires
        keys_distinct_seq(e),
        0 <= i < e.len(),
        entry_key(e[i]) == entry_key(a),
    ensures
        keys_distinct_seq(e.update(i, a)),
        keyed(e.update(i, a), f) == keyed(e, f).insert(entry_key(a), f(a)),
{
    let e2 = e.update(i, a);
    let k = entry_key(a);
    assert forall|x: int, y: int| 0 <= x < y < e2.len() implies entry_key(#[trigger] e2[x]) != entry_key(#[trigger] e2[y]) by {
        assert(entry_key(e[x]) != entry_key(e[y]));
    }
    let m1 = keyed(e2, f);
    let m2 = keyed(e, f).insert(k, f(a));
    assert forall|q: (Venue, Seq<char>)| m1.contains_key(q) <==> m2.contains_key(q) by {
        if m2.contains_key(q) && q != k {
            let c = choose|c: int| 0 <= c < e.len() && entry_key(e[c]) == q;
            assert(c != i);
            assert(entry_key(e2[c]) == q);
        }
        if m1.contains_key(q) && q != k {
            let c = choose|c: int| 0 <= c < e2.len() && entry_key(e2[c]) == q;
            assert(c != i);
            assert(entry_key(e[c]) == q);
        }
        if q == k {
            assert(entry_key(e2[i]) == q);
        }
    }
    assert forall|q: (Venue, Seq<char>)| m1.contains_key(q) implies m1[q] == m2[q] by {
        let c = choose|c: int| 0 <= c < e2.len() && entry_key(e2[c]) == q;
        if q == k {
            if c != i {
                if c < i {
                    assert(entry_key(e2[c]) != entry_key(e2[i]));
                } else {
                    assert(entry_key(e2[i]) != entry_key(e2[c]));
                }
            }
        } else {
            assert(c != i);
            assert(e2[c] == e[c]);
            let c0 = choose|c0: int| 0 <= c0 < e.len() && entry_key(e[c0]) == q;
            if c0 != c {
                if c0 < c {
                    assert(entry_key(e[c0]) != entry_key(e[c]));
                } else {
                    assert(entry_key(e[c]) != entry_key(e[c0]));
                }
            }
        }
    }
    assert(m1 =~= m2);
}

proof fn lemma_keyed_push<V>(e: Seq<LatencyArtifact>, a: LatencyArtifact, f: spec_fn(LatencyArtifact) -> V)
    requires
        keys_distinct_seq(e),
        forall|i: int| 0 <= i < e.len() ==> entry_key(#[trigger] e[i]) != entry_key(a),
    ensures
        keys_distinct_seq(e.push(a)),
        keyed(e.push(a), f) == keyed(e, f).insert(entry_key(a), f(a)),
{
    let e2 = e.push(a);
    let n = e.len() as int;
    let k = entry_key(a);
    assert forall|x: int, y: int| 0 <= x < y < e2.len() implies entry_key(#[trigger] e2[x]) != entry_key(#[trigger] e2[y]) by {
        if y == n {
            assert(e2[x] == e[x]);
        } else {
            assert(entry_key(e[x]) != entry_key(e[y]));
        }
    }
    let m1 = keyed(e2, f);
    let m2 = keyed(e, f).insert(k, f(a));
    assert forall|q: (Venue, Seq<char>)| m1.contains_key(q) <==> m2.contains_key(q) by {
        if m2.contains_key(q) && q != k {
            let c = choose|c: int| 0 <= c < e.len() && entry_key(e[c]) == q;
            assert(entry_key(e2[c]) == q);
        }
        if m1.contains_key(q) && q != k {
            let c = choose|c: int| 0 <= c < e2.len() && entry_key(e2[c]) == q;
            assert(c != n);
            assert(entry_key(e[c]) == q);
        }
        if q == k {
            assert(entry_key(e2[n]) == q);
        }
    }
    assert forall|q: (Venue, Seq<char>)| m1.contains_key(q) implies m1[q] == m2[q] by {
        let c = choose|c: int| 0 <= c < e2.len() && entry_key(e2[c]) == q;
        if q == k {
            if c != n {
                assert(entry_key(e2[c]) != entry_key(e2[n]));
            }
        } else {
            assert(c != n);
            assert(e2[c] == e[c]);
            let c0 = choose|c0: int| 0 <= c0 < e.len() && entry_key(e[c0]) == q;
            if c0 != c {
                if c0 < c {
                    assert(entry_key(e[c0]) != entry_key(e[c]));
                } else {
                    assert(entry_key(e[c]) != entry_key(e[c0]));
                }
            }
        }
    }
    assert(m1 =~= m2);
}

impl LatencyTable {
    pub closed spec fn keys_distinct(&self) -> bool {
        keys_distinct_seq(self.entries@)
    }

    /// The sample lists per instrument.
    pub closed spec fn samples(&self) -> Map<(Venue, Seq<char>), (Seq<u64>, Seq<u64>, Seq<u64>)> {
        keyed(self.entries@, |a: LatencyArtifact| entry_samples(a))
    }

    /// Schema version and provenance per instrument.
    pub closed spec fn meta(&self) -> Map<(Venue, Seq<char>), (u32, Seq<char>)> {
        keyed(self.entries@, |a: LatencyArtifact| entry_meta(a))
    }

    pub open spec fn wf(&self) -> bool {
        self.keys_distinct()
    }

    /// Every instrument of the table can be drawn from: each sample list is non-empty (and
    /// not longer than 2^53).
    pub open spec fn drawable(&self) -> bool {
        &&& self.wf()
        &&& forall|k: (Venue, Seq<char>)| #[trigger] self.samples().contains_key(k) ==> {
            &&& drawable_samples(self.samples()[k].0)
            &&& drawable_samples(self.samples()[k].1)
            &&& drawable_samples(self.samples()[k].2)
        }
    }

    /// An empty table.
    pub fn new() -> (r: Self)
        ensures
            r.drawable(),
            r.samples() == Map::<(Venue, Seq<char>), (Seq<u64>, Seq<u64>, Seq<u64>)>::empty(),
            r.meta() == Map::<(Venue, Seq<char>), (u32, Seq<char>)>::empty(),
    {
        let r = LatencyTable { entries: Vec::new() };
        assert(r.samples() =~= Map::empty());
        assert(r.meta() =~= Map::empty());
        r
    }

    fn find(&self, venue: Venue, symbol: &str) -> (r: Option<usize>)
        requires
            self.wf(),
        ensures
            r matches Some(i) ==> i < self.entries@.len() && entry_key(self.entries@[i as int]) == (venue, symbol@),
            r is None ==> !self.samples().contains_key((venue, symbol@)),
            r matches Some(i) ==> self.samples().contains_key((venue, symbol@)) && self.samples()[(venue, symbol@)]
                == entry_samples(self.entries@[i as int]),
    {
        let mut i: usize = 0;
        while i < self.entries.len()
            invariant
                i <= self.entries@.len(),
                self.wf(),
                forall|j: int| 0 <= j < i ==> entry_key(#[trigger] self.entries@[j]) != (venue, symbol@),
            decreases self.entries@.len() - i,
        {
            if self.entries[i].venue == venue && str_eq(self.entries[i].symbol.as_str(), symbol) {
                proof {
                    let k = (venue, symbol@);
                    assert(self.entries@[i as int].venue == venue);
                    assert(self.entries@[i as int].symbol@ == symbol@);
                    assert(entry_key(self.entries@[i as int]) == k);
                    let c = choose|c: int| 0 <= c < self.entries@.len() && entry_key(self.entries@[c]) == k;
                    if c != i as int {
                        if c < i {
                            assert(entry_key(self.entries@[c]) != entry_key(self.entries@[i as int]));
                        } else {
                            assert(entry_key(self.entries@[i as int]) != entry_key(self.entries@[c]));
                        }
                    }
                }
                return Some(i);
            }
            i = i + 1;
        }
        None
    }

    /// Whether the instrument has a distribution.
    pub fn has(&self, venue: Venue, symbol: &str) -> (r: bool)
        requires
            self.wf(),
        ensures
            r == self.samples().contains_key((venue, symbol@)),
    {
        self.find(venue, symbol).is_some()
    }

    /// Put an artifact in the table, replacing the instrument's earlier entry.
    fn put(&mut self, artifact: LatencyArtifact)
        requires
            old(self).wf(),
        ensures
            final(self).wf(),
            final(self).samples() == old(self).samples().insert(entry_key(artifact), entry_samples(artifact)),
            final(self).meta() == old(self).meta().insert(entry_key(artifact), entry_meta(artifact)),
    {
        let ghost old_e = self.entries@;
        let ghost art = artifact;
        let found = self.find(artifact.venue, artifact.symbol.as_str());
        match found {
            Some(i) => {
                self.entries.set(i, artifact);
                proof {
                    assert(self.entries@ == old_e.update(i as int, art));
                    lemma_keyed_set(old_e, i as int, art, |a: LatencyArtifact| entry_samples(a));
                    lemma_keyed_set(old_e, i as int, art, |a: LatencyArtifact| entry_meta(a));
                }
            },
            None => {
                self.entries.push(artifact);
                proof {
                    assert forall|j: int| 0 <= j < old_e.len() implies entry_key(#[trigger] old_e[j]) != entry_key(art) by {
                        if entry_key(old_e[j]) == entry_key(art) {
                            assert(old(self).samples().contains_key(entry_key(art)));
                        }
                    }
                    lemma_keyed_push(old_e, art, |a: LatencyArtifact| entry_samples(a));
                    lemma_keyed_push(old_e, art, |a: LatencyArtifact| entry_meta(a));
                }
            },
        }
    }

    /// Put synthetic samples for an instrument in the table (replacing its entry).
    pub fn insert_samples(&mut self, venue: Venue, symbol: &str, submit_ns: Vec<u64>, cancel_ns: Vec<u64>, md_ns: Vec<u64>, provenance: &str)
        requires
            old(self).wf(),
        ensures
            final(self).wf(),
            final(self).samples() == old(self).samples().insert((venue, symbol@), (submit_ns@, cancel_ns@, md_ns@)),
            final(self).meta() == old(self).meta().insert((venue, symbol@), (1u32, provenance@)),
    {
        let artifact = LatencyArtifact {
            schema_version: 1,
            venue,
            symbol: symbol.to_owned(),
            provenance: provenance.to_owned(),
            delta_submit_ns: submit_ns,
            delta_cancel_ns: cancel_ns,
            delta_md_ns: md_ns,
        };
        self.put(artifact);
    }

    /// Accept a parsed latency artifact: empty sample lists or an empty provenance are a
    /// `Parse` error and leave the table unchanged; otherwise the instrument's entry is set.
    pub fn accept_artifact(&mut self, artifact: LatencyArtifact) -> (r: Result<(), SimError>)
        requires
            old(self).wf(),
        ensures
            final(self).wf(),
            r is Ok <==> (has_non_whitespace(artifact.provenance@) && artifact.delta_submit_ns@.len() > 0
                && artifact.delta_cancel_ns@.len() > 0 && artifact.delta_md_ns@.len() > 0),
            r matches Err(e) ==> e is Parse,
            r is Ok ==> final(self).samples() == old(self).samples().insert(entry_key(artifact), entry_samples(artifact)),
            r is Ok ==> final(self).meta() == old(self).meta().insert(entry_key(artifact), entry_meta(artifact)),
            r is Err ==> final(self).samples() == old(self).samples(),
            r is Err ==> final(self).meta() == old(self).meta(),
    {
        if !is_non_blank(artifact.provenance.as_str()) || artifact.delta_submit_ns.len() == 0
            || artifact.delta_cancel_ns.len() == 0 || artifact.delta_md_ns.len() == 0 {
            return Err(SimError::Parse("latency artifact: empty samples or empty provenance".to_owned()));
        }
        self.put(artifact);
        Ok(())
    }

    /// Draw one latency per kind (submit, then cancel, then market data, in this fixed
    /// order of generator calls) from the instrument's samples. An instrument without an
    /// entry is `MissingLatency`, and the generator is not touched.
    pub fn draw(&self, venue: Venue, symbol: &str, rng: &mut SplitMix64) -> (r: Result<LatencyDraw, SimError>)
        requires
            self.drawable(),
        ensures
            !self.samples().contains_key((venue, symbol@)) <==> r is Err,
            r matches Err(e) ==> (e matches SimError::MissingLatency { venue: v, symbol: s } && v == venue
                && s@ == symbol@),
            r is Err ==> final(rng)@ == old(rng)@,
            r matches Ok(d) ==> ({
                let smp = self.samples()[(venue, symbol@)];
                let s1 = splitmix_advance(old(rng)@);
                let s2 = splitmix_advance(s1);
                let s3 = splitmix_advance(s2);
                &&& final(rng)@ == s3
                &&& d.delta_submit_ns == smp.0[sample_index(splitmix_mix(s1), smp.0.len()) as int]
                &&& d.delta_cancel_ns == smp.1[sample_index(splitmix_mix(s2), smp.1.len()) as int]
                &&& d.delta_md_ns == smp.2[sample_index(splitmix_mix(s3), smp.2.len()) as int]
            }),
    {
        match self.find(venue, symbol) {
            None => Err(SimError::MissingLatency { venue, symbol: symbol.to_owned() }),
            Some(i) => {
                let a = &self.entries[i];
                proof {
                    assert(self.samples().contains_key((venue, symbol@)));
                }
                let v1 = rng.next_u64();
                let i1 = sample_index_of(v1, a.delta_submit_ns.len());
                let v2 = rng.next_u64();
                let i2 = sample_index_of(v2, a.delta_cancel_ns.len());
                let v3 = rng.next_u64();
                let i3 = sample_index_of(v3, a.delta_md_ns.len());
                Ok(LatencyDraw {
                    delta_submit_ns: a.delta_submit_ns[i1],
                    delta_cancel_ns: a.delta_cancel_ns[i2],
                    delta_md_ns: a.delta_md_ns[i3],
                })
            }
        }
    }

    /// The entries, for building a stressed copy: each instrument of the table once, with
    /// its samples, schema version and provenance.
    pub fn artifacts(&self) -> (r: Vec<LatencyArtifact>)
        requires
            self.wf(),
        ensures
            forall|i: int| 0 <= i < r@.len() ==> self.samples().contains_key(entry_key(#[trigger] r@[i]))
                && self.samples()[entry_key(r@[i])] == entry_samples(r@[i])
                && self.meta()[entry_key(r@[i])] == entry_meta(r@[i]),
            keys_distinct_seq(r@),
            forall|k: (Venue, Seq<char>)| self.samples().contains_key(k) ==> exists|i: int| 0 <= i < r@.len()
                && entry_key(#[trigger] r@[i]) == k,
    {
        let mut out: Vec<LatencyArtifact> = Vec::new();
        let mut i: usize = 0;
        while i < self.entries.len()
            invariant
                i <= self.entries@.len(),
                out@.len() == i,
                forall|j: int| 0 <= j < i ==> entry_key(#[trigger] out@[j]) == entry_key(self.entries@[j])
                    && entry_samples(out@[j]) == entry_samples(self.entries@[j])
                    && entry_meta(out@[j]) == entry_meta(self.entries@[j]),
            decreases self.entries@.len() - i,
        {
            let a = &self.entries[i];
            out.push(LatencyArtifact {
                schema_version: a.schema_version,
                venue: a.venue,
                symbol: copy_string(&a.symbol),
                provenance: copy_string(&a.provenance),
                delta_submit_ns: copy_samples(&a.delta_submit_ns),
                delta_cancel_ns: copy_samples(&a.delta_cancel_ns),
                delta_md_ns: copy_samples(&a.delta_md_ns),
            });
            i = i + 1;
        }
        proof {
            let e = self.entries@;
            assert forall|x: int, y: int| 0 <= x < y < out@.len() implies entry_key(#[trigger] out@[x]) != entry_key(#[trigger] out@[y]) by {
                assert(entry_key(e[x]) != entry_key(e[y]));
            }
            assert forall|j: int| 0 <= j < out@.len() implies self.samples().contains_key(entry_key(#[trigger] out@[j]))
                && self.samples()[entry_key(out@[j])] == entry_samples(out@[j])
                && self.meta()[entry_key(out@[j])] == entry_meta(out@[j]) by {
                let k = entry_key(e[j]);
                assert(self.samples().contains_key(k));
                let c = choose|c: int| 0 <= c < e.len() && entry_key(e[c]) == k;
                if c != j {
                    if c < j { assert(entry_key(e[c]) != entry_key(e[j])); }
                    else { assert(entry_key(e[j]) != entry_key(e[c])); }
                }
            }
            assert forall|k: (Venue, Seq<char>)| self.samples().contains_key(k) implies exists|j: int| 0 <= j < out@.len()
                && entry_key(#[trigger] out@[j]) == k by {
                let c = choose|c: int| 0 <= c < e.len() && entry_key(e[c]) == k;
                assert(entry_key(out@[c]) == k);
            }
        }
        out
    }
}

fn copy_string(s: &String) -> (r: String)
    ensures
        r@ == s@,
{
    s.as_str().to_owned()
}

fn copy_samples(v: &Vec<u64>) -> (r: Vec<u64>)
    ensures
        r@ == v@,
{
    let mut out: Vec<u64> = Vec::new();
    let mut i: usize = 0;
    while i < v.len()
        invariant
            i <= v@.len(),
            out@ == v@.subrange(0, i as int),
        decreases v@.len() - i,
    {
        out.push(v[i]);
        i = i + 1;
    }
    assert(v@.subrange(0, v@.len() as int) =~= v@);
    out
}

} // verus!
