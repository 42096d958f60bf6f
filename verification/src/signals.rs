//! Signal vocabulary: identifiers in the `S-NNN-<slug>` format, registry statuses and the
//! one output shape a signal emits.

use vstd::prelude::*;

use crate::market::PRICE_SCALE;

verus! {

/// Scale of a signal value: ±1e8 is a directional score of ±1.0.
pub const SIGNAL_VALUE_SCALE: i64 = PRICE_SCALE;

pub open spec fn is_digit_char(c: char) -> bool {
    '0' <= c <= '9'
}

pub open spec fn is_slug_char(c: char) -> bool {
    ('a' <= c <= 'z') || ('0' <= c <= '9')
}

/// Slug: non-empty segments of `[a-z0-9]`, joined by single hyphens (no leading, trailing
/// or doubled hyphen).
pub open spec fn valid_slug(s: Seq<char>) -> bool {
    &&& s.len() > 0
    &&& s[0] != '-'
    &&& s[s.len() - 1] != '-'
    &&& forall|i: int| 0 <= i < s.len() ==> #[trigger] is_slug_char(s[i]) || s[i] == '-'
    &&& forall|i: int| 0 <= i < s.len() - 1 ==> !(s[i] == '-' && #[trigger] s[i + 1] == '-')
}

/// `S-NNN-<slug>` with exactly three decimal digits.
pub open spec fn valid_signal_id(s: Seq<char>) -> bool {
    &&& s.len() >= 7
    &&& s[0] == 'S'
    &&& s[1] == '-'
    &&& is_digit_char(s[2])
    &&& is_digit_char(s[3])
    &&& is_digit_char(s[4])
    &&& s[5] == '-'
    &&& valid_slug(s.subrange(6, s.len() as int))
}

/// Identifier of a signal, always in the `S-NNN-<slug>` format.
#[derive(Debug, PartialEq, Eq, Hash)]
pub struct SignalId(String);

impl Clone for SignalId {
    fn clone(&self) -> (r: Self)
        ensures
            r@ == self@,
    {
        proof {
            use_type_invariant(self);
        }
        SignalId(self.0.as_str().to_owned())
    }
}

impl SignalId {
    #[verifier::type_invariant]
    spec fn id_wf(self) -> bool {
        valid_signal_id(self.0@)
    }
}

impl View for SignalId {
    type V = Seq<char>;

    closed spec fn view(&self) -> Seq<char> {
        self.0@
    }
}

/// Registry status of a signal (read and passed on, never assigned here).
#[derive(Clone, Copy, Debug, PartialEq, Eq, Structural)]
pub enum RegistryStatus {
    Candidate,
    Paper,
    Live,
    Retired,
}

/// Metadata for downstream consumers.
#[derive(Clone, Copy, Debug, PartialEq, Eq, Structural)]
pub struct SignalMeta {
    pub horizon_ms: i64,
}

/// The one shape a signal emits: a directional score ×1e8 in `[−1e8, +1e8]`.
#[derive(Clone, Debug, PartialEq)]
pub struct SignalOut {
    pub signal_id: SignalId,
    pub ts_event_mono_ns: u64,
    pub value: i64,
    pub status: RegistryStatus,
    pub meta: SignalMeta,
}

/// Handle of a signal's specification card.
#[derive(Clone, Debug, PartialEq)]
pub struct SignalSpecRef {
    pub id: SignalId,
    pub version: u32,
}

/// Errors of the signal layer.
#[derive(Debug)]
pub enum SignalError {
    InvalidId(String),
    CodeHashMismatch { signal_id: String, expected: String, actual: String },
    InvalidParams(String),
    UnknownModule(String),
    IdMismatch { registry: String, spec: String },
    /// Message of the I/O error.
    Io(String),
    Parse(String),
}

impl SignalId {
    /// Validate the `S-NNN-<slug>` format; anything else is `InvalidId` carrying the input.
    pub fn parse(s: &str) -> (r: Result<SignalId, SignalError>)
        ensures
            r matches Ok(id) ==> valid_signal_id(s@) && id@ == s@,
            r matches Err(e) ==> !valid_signal_id(s@) && (e matches SignalError::InvalidId(m)
                && m@ == s@),
            valid_signal_id(s@) <==> r is Ok,
    {
        let n = s.unicode_len();
        if n < 7 {
            return Err(SignalError::InvalidId(s.to_owned()));
        }
        let c0 = s.get_char(0);
        let c1 = s.get_char(1);
        let c2 = s.get_char(2);
        let c3 = s.get_char(3);
        let c4 = s.get_char(4);
        let c5 = s.get_char(5);
        if c0 != 'S' || c1 != '-' {
            return Err(SignalError::InvalidId(s.to_owned()));
        }
        if !('0' <= c2 && c2 <= '9') || !('0' <= c3 && c3 <= '9') || !('0' <= c4 && c4 <= '9') {
            return Err(SignalError::InvalidId(s.to_owned()));
        }
        if c5 != '-' {
            return Err(SignalError::InvalidId(s.to_owned()));
        }
        let ghost slug = s@.subrange(6, n as int);
        let mut prev_hyphen = true;
        let mut i: usize = 6;
        while i < n
            invariant
                6 <= i <= n,
                n == s@.len(),
                slug == s@.subrange(6, n as int),
                forall|j: int| 0 <= j < i - 6 ==> #[trigger] is_slug_char(slug[j]) || slug[j] == '-',
                forall|j: int| 0 <= j < i - 7 ==> !(slug[j] == '-' && #[trigger] slug[j + 1] == '-'),
                i > 6 ==> slug[0] != '-',
                prev_hyphen == (i == 6 || slug[i - 7] == '-'),
            decreases n - i,
        {
            let c = s.get_char(i);
            assert(c == slug[i - 6]);
            if ('a' <= c && c <= 'z') || ('0' <= c && c <= '9') {
                prev_hyphen = false;
            } else if c == '-' {
                if prev_hyphen {
                    proof {
                        if i > 6 {
                            let j: int = i - 7;
                            assert(slug[j] == '-' && slug[j + 1] == '-');
                            assert(!valid_slug(slug));
                        }
                    }
                    return Err(SignalError::InvalidId(s.to_owned()));
                }
                prev_hyphen = true;
            } else {
                assert(!(is_slug_char(slug[i - 6]) || slug[i - 6] == '-'));
                return Err(SignalError::InvalidId(s.to_owned()));
            }
            i = i + 1;
        }
        if prev_hyphen {
            return Err(SignalError::InvalidId(s.to_owned()));
        }
        Ok(SignalId(s.to_owned()))
    }

    /// The identifier text, always in the `S-NNN-<slug>` format, so that `parse` gives the
    /// identifier back from it.
    pub fn as_str(&self) -> (r: &str)
        ensures
            r@ == self@,
            valid_signal_id(r@),
    {
        proof {
            use_type_invariant(self);
        }
        self.0.as_str()
    }
}

/// The name a registry status is written under.
pub open spec fn status_name(st: RegistryStatus) -> Seq<char> {
    match st {
        RegistryStatus::Candidate => "candidate"@,
        RegistryStatus::Paper => "paper"@,
        RegistryStatus::Live => "live"@,
        RegistryStatus::Retired => "retired"@,
    }
}

/// Registry status from its name (`candidate|paper|live|retired`); any other name is a
/// `Parse` error, never a default.
pub fn parse_status(s: &str) -> (r: Result<RegistryStatus, SignalError>)
    ensures
        r matches Ok(st) ==> s@ == status_name(st),
        r is Err <==> (forall|st: RegistryStatus| s@ != #[trigger] status_name(st)),
        r is Err ==> (r matches Err(SignalError::Parse(_))),
{
    proof {
        reveal_strlit("candidate");
        reveal_strlit("paper");
        reveal_strlit("live");
        reveal_strlit("retired");
    }
    if str_eq(s, "candidate") {
        assert(s@ == status_name(RegistryStatus::Candidate));
        Ok(RegistryStatus::Candidate)
    } else if str_eq(s, "paper") {
        assert(s@ == status_name(RegistryStatus::Paper));
        Ok(RegistryStatus::Paper)
    } else if str_eq(s, "live") {
        assert(s@ == status_name(RegistryStatus::Live));
        Ok(RegistryStatus::Live)
    } else if str_eq(s, "retired") {
        assert(s@ == status_name(RegistryStatus::Retired));
        Ok(RegistryStatus::Retired)
    } else {
        assert forall|st: RegistryStatus| s@ != #[trigger] status_name(st) by {
            match st {
                RegistryStatus::Candidate => {},
                RegistryStatus::Paper => {},
                RegistryStatus::Live => {},
                RegistryStatus::Retired => {},
            }
        }
        let mut m = "unknown RegistryStatus `".to_owned();
        m.append(s);
        m.append("`");
        Err(SignalError::Parse(m))
    }
}

/// Character-wise string equality.
pub fn str_eq(a: &str, b: &str) -> (r: bool)
    ensures
        r == (a@ == b@),
{
    let n = a.unicode_len();
    let m = b.unicode_len();
    if n != m {
        return false;
    }
    let mut i: usize = 0;
    while i < n
        invariant
            i <= n,
            n == a@.len(),
            m == b@.len(),
            n == m,
            forall|j: int| 0 <= j < i ==> a@[j] == b@[j],
        decreases n - i,
    {
        if a.get_char(i) != b.get_char(i) {
            return false;
        }
        i = i + 1;
    }
    assert(a@ =~= b@);
    true
}

/// Signal modules the registry can instantiate.
#[derive(Clone, Copy, Debug, PartialEq, Eq, Structural)]
pub enum SignalModule {
    Obi,
}

/// Check a registry entry whose module source hashes to `computed_hash`, in this order: the
/// registered code hash must be the computed one (`CodeHashMismatch`), the identifier must
/// be in the `S-NNN-<slug>` format (`InvalidParams`), and the module must be known
/// (`UnknownModule`). On success, the identifier and the module.
pub fn check_entry(signal_id: &str, module: &str, expected_hash: &str, computed_hash: &str) -> (r: Result<(SignalId, SignalModule), SignalError>)
    ensures
        r is Ok <==> (expected_hash@ == computed_hash@ && valid_signal_id(signal_id@) && module@ == "obi"@),
        r matches Ok(p) ==> p.0@ == signal_id@ && p.1 == SignalModule::Obi,
        expected_hash@ != computed_hash@ ==> (r matches Err(SignalError::CodeHashMismatch { signal_id: s, expected: e, actual: a })
            && s@ == signal_id@ && e@ == expected_hash@ && a@ == computed_hash@),
        expected_hash@ == computed_hash@ && !valid_signal_id(signal_id@) ==> r matches Err(SignalError::InvalidParams(_)),
        expected_hash@ == computed_hash@ && valid_signal_id(signal_id@) && module@ != "obi"@ ==> (r matches Err(
            SignalError::UnknownModule(m),
        ) && m@ == module@),
{
    if !str_eq(expected_hash, computed_hash) {
        return Err(SignalError::CodeHashMismatch {
            signal_id: signal_id.to_owned(),
            expected: expected_hash.to_owned(),
            actual: computed_hash.to_owned(),
        });
    }
    let id = match SignalId::parse(signal_id) {
        Ok(id) => id,
        Err(_) => {
            let mut m = "invalid signal_id `".to_owned();
            m.append(signal_id);
            m.append("`");
            return Err(SignalError::InvalidParams(m));
        },
    };
    if !str_eq(module, "obi") {
        return Err(SignalError::UnknownModule(module.to_owned()));
    }
    Ok((id, SignalModule::Obi))
}

} // verus!
