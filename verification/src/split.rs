//! Time-split discipline: the test segment is unreachable until the validation gate has
//! passed (the token that proves it has no public constructor), and it is touched at most
//! once unless an explicit, justified override is given.

use vstd::prelude::*;

use crate::sim::fees::{has_non_whitespace, is_non_blank};
use crate::types::{RcError, TimeSplit};

verus! {

/// Proof that the validation gate passed. Its field is private and it has no public
/// constructor: code that reads the test range needs one, and only
/// `SplitState::record_val_gate` hands one out.
pub struct ValGateToken {
    _priv: (),
}

/// Persistent state of a hypothesis run.
#[derive(Clone, Debug)]
pub struct SplitState {
    pub hypothesis: String,
    pub split: TimeSplit,
    pub val_gate_passed: bool,
    pub test_touched: bool,
    /// Audit log of the touches of the test segment, override reasons included.
    pub touch_log: Vec<String>,
}

/// Log line of the first touch.
pub open spec fn first_touch_entry() -> Seq<char> {
    "first touch of the test segment"@
}

/// Log line of an override.
pub open spec fn override_entry(reason: Seq<char>) -> Seq<char> {
    "override: "@ + reason
}

/// The lines of a log, as text.
pub open spec fn log_text(v: Seq<String>) -> Seq<Seq<char>> {
    v.map_values(|s: String| s@)
}

/// The override reason says something.
pub open spec fn real_override(reason: Option<&str>) -> bool {
    match reason {
        Some(r) => has_non_whitespace(r@),
        None => false,
    }
}

fn override_line(reason: &str) -> (r: String)
    ensures
        r@ == override_entry(reason@),
{
    let mut s = "override: ".to_owned();
    s.append(reason);
    s
}

impl SplitState {
    /// Fresh state: gate not passed, test untouched, empty log.
    pub fn new(hypothesis: &str, split: TimeSplit) -> (r: Self)
        ensures
            r.hypothesis@ == hypothesis@,
            r.split == split,
            !r.val_gate_passed,
            !r.test_touched,
            log_text(r.touch_log@).len() == 0,
    {
        SplitState {
            hypothesis: hypothesis.to_owned(),
            split,
            val_gate_passed: false,
            test_touched: false,
            touch_log: Vec::new(),
        }
    }

    /// Record the outcome of the validation check: whether the validation results met
    /// the criteria registered before the run. Met: `val_gate_passed` becomes true and
    /// the result is a token. Not met: `val_gate_passed` becomes false and the result is
    /// `GateDenied` with the given message; no token exists.
    pub fn record_val_gate(&mut self, passed: bool, failure_message: String) -> (r: Result<ValGateToken, RcError>)
        ensures
            final(self).val_gate_passed == passed,
            r is Ok <==> passed,
            r matches Err(e) ==> (e matches RcError::GateDenied(m) && m@ == failure_message@),
            final(self).hypothesis == old(self).hypothesis,
            final(self).split == old(self).split,
            final(self).test_touched == old(self).test_touched,
            final(self).touch_log == old(self).touch_log,
    {
        if passed {
            self.val_gate_passed = true;
            Ok(ValGateToken { _priv: () })
        } else {
            self.val_gate_passed = false;
            Err(RcError::GateDenied(failure_message))
        }
    }

    /// The test range, for a holder of a validation token. The first touch sets the
    /// segment as touched and logs it (with the override reason, if one is given and not blank).
    /// A later touch needs a non-blank override reason, which is logged; without one it is
    /// `GateDenied` and nothing changes.
    pub fn touch_test(&mut self, proof: &ValGateToken, override_reason: Option<&str>) -> (r: Result<(i64, i64), RcError>)
        ensures
            final(self).hypothesis == old(self).hypothesis,
            final(self).split == old(self).split,
            final(self).val_gate_passed == old(self).val_gate_passed,
            !old(self).test_touched ==> {
                &&& r == Ok::<(i64, i64), RcError>(old(self).split.test_ms)
                &&& final(self).test_touched
                &&& real_override(override_reason) ==> log_text(final(self).touch_log@) == log_text(old(self).touch_log@)
                    + seq![first_touch_entry(), override_entry(override_reason.unwrap()@)]
                &&& !real_override(override_reason) ==> log_text(final(self).touch_log@) == log_text(old(self).touch_log@).push(first_touch_entry())
            },
            old(self).test_touched && real_override(override_reason) ==> {
                &&& r == Ok::<(i64, i64), RcError>(old(self).split.test_ms)
                &&& final(self).test_touched
                &&& log_text(final(self).touch_log@) == log_text(old(self).touch_log@).push(override_entry(override_reason.unwrap()@))
            },
            old(self).test_touched && !real_override(override_reason) ==> {
                &&& r matches Err(RcError::GateDenied(_))
                &&& final(self).test_touched
                &&& final(self).touch_log@ == old(self).touch_log@
            },
    {
        if !self.test_touched {
            self.test_touched = true;
            proof {
                reveal_strlit("first touch of the test segment");
            }
            let first = "first touch of the test segment".to_owned();
            self.touch_log.push(first);
            assert(log_text(self.touch_log@) =~= log_text(old(self).touch_log@).push(first_touch_entry()));
            match override_reason {
                Some(reason) => {
                    if is_non_blank(reason) {
                        let ghost before = self.touch_log@;
                        self.touch_log.push(override_line(reason));
                        assert(log_text(self.touch_log@) =~= log_text(before).push(override_entry(reason@)));
                        assert(log_text(self.touch_log@) =~= log_text(old(self).touch_log@)
                            + seq![first_touch_entry(), override_entry(reason@)]);
                    }
                },
                None => {},
            }
            return Ok(self.split.test_ms);
        }
        match override_reason {
            Some(reason) => {
                if is_non_blank(reason) {
                    self.touch_log.push(override_line(reason));
                    assert(log_text(self.touch_log@) =~= log_text(old(self).touch_log@).push(override_entry(reason@)));
                    return Ok(self.split.test_ms);
                }
                Err(RcError::GateDenied(
                    "test segment already touched; a repeated touch needs an override reason".to_owned(),
                ))
            },
            None => Err(RcError::GateDenied(
                "test segment already touched; a repeated touch needs an override reason".to_owned(),
            )),
        }
    }
}

} // verus!
