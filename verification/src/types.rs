//! Research vocabulary: splits, cost modes, verdicts, errors.

use vstd::prelude::*;

use crate::signals::str_eq;
use crate::sim::types::SimError;

verus! {

pub const REPORT_SCHEMA_VERSION: u32 = 2;

pub const TRIALS_LEDGER_SCHEMA_VERSION: u32 = 1;

/// Segment of the time split.
#[derive(Clone, Copy, Debug, PartialEq, Eq, Structural)]
pub enum SplitKind {
    Train,
    Val,
    Test,
}

/// Cost mode of a run: a stress is a separate run through the simulator, never a
/// post-processing of finished numbers.
#[derive(Clone, Copy, Debug, PartialEq, Eq, Structural)]
pub enum CostsMode {
    Baseline,
    /// Costs ×1.5.
    CostX15,
    /// Latency ×2.
    LatencyX2,
}

/// Boundaries of the time split.
#[derive(Clone, Copy, Debug, PartialEq, Eq)]
pub struct TimeSplit {
    pub train_ms: (i64, i64),
    pub val_ms: (i64, i64),
    pub test_ms: (i64, i64),
}

/// Sliding walk-forward window.
#[derive(Clone, Copy, Debug, PartialEq, Eq, Structural)]
pub struct WalkForwardWindow {
    pub train_window_ms: i64,
    pub test_window_ms: i64,
    pub step_ms: i64,
}

/// Machine verdict of the kill screen.
#[derive(Clone, Debug, PartialEq, Eq)]
pub enum Verdict {
    Kill(String),
    Inconclusive(String),
    Pass,
}

/// Errors of the research layer.
#[derive(Debug)]
pub enum RcError {
    /// Message of an I/O error.
    Io(String),
    Parse(String),
    /// Corrupt segment or chain: abort, no partial results.
    CorruptInput(String),
    /// A ledger write failed: the whole run aborts.
    LedgerWrite(String),
    Sim(SimError),
    Signal(String),
    /// The pre-registration card is missing or incomplete.
    PreRegistrationMissing(String),
    GateDenied(String),
}

/// `s` starts with `prefix`.
pub open spec fn has_prefix(s: Seq<char>, prefix: Seq<char>) -> bool {
    prefix.len() <= s.len() && s.subrange(0, prefix.len() as int) == prefix
}

/// The text a verdict is written as: `Pass`, `Kill: <reason>` or `Inconclusive: <reason>`.
pub open spec fn verdict_text(v: Verdict) -> Seq<char> {
    match v {
        Verdict::Pass => "Pass"@,
        Verdict::Kill(r) => "Kill: "@ + r@,
        Verdict::Inconclusive(r) => "Inconclusive: "@ + r@,
    }
}

/// Copy of the characters of `s` from `start` on.
fn suffix_from(s: &str, start: usize) -> (r: String)
    requires
        start <= s@.len(),
    ensures
        r@ == s@.subrange(start as int, s@.len() as int),
{
    let n = s.unicode_len();
    s.substring_char(start, n).to_owned()
}

/// Whether `s` starts with `prefix`.
fn starts_with(s: &str, prefix: &str) -> (r: bool)
    ensures
        r == has_prefix(s@, prefix@),
{
    let n = s.unicode_len();
    let m = prefix.unicode_len();
    if m > n {
        return false;
    }
    let mut i: usize = 0;
    while i < m
        invariant
            i <= m <= n,
            n == s@.len(),
            m == prefix@.len(),
            forall|j: int| 0 <= j < i ==> s@[j] == prefix@[j],
        decreases m - i,
    {
        if s.get_char(i) != prefix.get_char(i) {
            assert(s@.subrange(0, m as int)[i as int] != prefix@[i as int]);
            return false;
        }
        i = i + 1;
    }
    assert(s@.subrange(0, m as int) =~= prefix@);
    true
}

impl Verdict {
    /// The verdict as text: `Pass`, `Kill: <reason>` or `Inconclusive: <reason>`.
    pub fn to_text(&self) -> (r: String)
        ensures
            r@ == verdict_text(*self),
    {
        match self {
            Verdict::Pass => "Pass".to_owned(),
            Verdict::Kill(reason) => {
                let mut s = "Kill: ".to_owned();
                s.append(reason.as_str());
                s
            },
            Verdict::Inconclusive(reason) => {
                let mut s = "Inconclusive: ".to_owned();
                s.append(reason.as_str());
                s
            },
        }
    }

    /// Read a verdict back from its text. `Pass` exactly, or a `Kill: ` or `Inconclusive: `
    /// prefix followed by the reason; anything else is an error.
    pub fn from_text(s: &str) -> (r: Result<Verdict, String>)
        ensures
            s@ == "Pass"@ ==> r == Ok::<Verdict, String>(Verdict::Pass),
            s@ != "Pass"@ && has_prefix(s@, "Kill: "@) ==> (r matches Ok(Verdict::Kill(reason))
                && reason@ == s@.subrange(6, s@.len() as int)),
            s@ != "Pass"@ && !has_prefix(s@, "Kill: "@) && has_prefix(s@, "Inconclusive: "@) ==> (r matches Ok(
                Verdict::Inconclusive(reason),
            ) && reason@ == s@.subrange(14, s@.len() as int)),
            r is Err <==> (s@ != "Pass"@ && !has_prefix(s@, "Kill: "@) && !has_prefix(s@, "Inconclusive: "@)),
    {
        proof {
            reveal_strlit("Pass");
            reveal_strlit("Kill: ");
            reveal_strlit("Inconclusive: ");
        }
        if str_eq(s, "Pass") {
            return Ok(Verdict::Pass);
        }
        if starts_with(s, "Kill: ") {
            return Ok(Verdict::Kill(suffix_from(s, 6)));
        }
        if starts_with(s, "Inconclusive: ") {
            return Ok(Verdict::Inconclusive(suffix_from(s, 14)));
        }
        Err("verdict must be Pass, Kill: <reason> or Inconclusive: <reason>".to_owned())
    }
}

/// Reading a verdict back from its text gives the verdict.
pub proof fn law_verdict_text_round_trip(v: Verdict)
    ensures
        verdict_text(v) == "Pass"@ ==> v == Verdict::Pass,
        ({
            let t = verdict_text(v);
            match v {
                Verdict::Pass => t == "Pass"@,
                Verdict::Kill(r) => t != "Pass"@ && has_prefix(t, "Kill: "@) && t.subrange(6, t.len() as int) == r@,
                Verdict::Inconclusive(r) => t != "Pass"@ && !has_prefix(t, "Kill: "@) && has_prefix(t, "Inconclusive: "@)
                    && t.subrange(14, t.len() as int) == r@,
            }
        }),
{
    reveal_strlit("Pass");
    reveal_strlit("Kill: ");
    reveal_strlit("Inconclusive: ");
    let t = verdict_text(v);
    match v {
        Verdict::Pass => {},
        Verdict::Kill(r) => {
            assert(t.subrange(0, 6) =~= "Kill: "@);
            assert(t.subrange(6, t.len() as int) =~= r@);
            if t == "Pass"@ {
                assert(t[0] == 'K');
            }
        },
        Verdict::Inconclusive(r) => {
            assert(t.subrange(0, 14) =~= "Inconclusive: "@);
            assert(t.subrange(14, t.len() as int) =~= r@);
            if t == "Pass"@ {
                assert(t[0] == 'I');
            }
            if has_prefix(t, "Kill: "@) {
                assert(t.subrange(0, 6)[0] == 'K');
            }
        },
    }
}

} // verus!
