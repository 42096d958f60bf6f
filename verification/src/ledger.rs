//! Trials ledger: the global append-only count of attempts. JSON Lines, one trial record per
//! line, chained by hashes: each record carries the SHA-256 (lower-case hex) of the previous
//! line's bytes, and the first one carries `genesis`. Hand editing the file outside the tool
//! breaks the chain.
//!
//! The file itself is read and appended by the caller; here live the line splitting, the
//! hash chain and the counts.

use sha2::{Digest, Sha256};
use vstd::prelude::*;

verus! {

/// SHA-256 of a byte string: the digest `sha2` computes.
pub uninterp spec fn sha256_of(data: Seq<u8>) -> Seq<u8>;

/// SHA-256 of `data` through the `sha2` crate.
///
/// Trusted: `Sha256::digest` returns the 32-byte digest of its input, a function of the
/// input alone; nothing else about its value is stated.
#[verifier::external_body]
fn sha256_digest(data: &[u8]) -> (r: Vec<u8>)
    ensures
        r@ == sha256_of(data@),
        r@.len() == 32,
{
    Sha256::digest(data).to_vec()
}

pub const HEX_DIGITS: &'static str = "0123456789abcdef";

/// Lower-case hexadecimal digit of a nibble.
pub open spec fn hex_digit(n: int) -> char {
    if n < 10 {
        (n + 48) as char
    } else {
        (n + 87) as char
    }
}

/// Lower-case hexadecimal text of bytes, two digits per byte, high nibble first.
pub open spec fn hex_text(b: Seq<u8>) -> Seq<char>
    decreases b.len(),
{
    if b.len() == 0 {
        Seq::empty()
    } else {
        hex_text(b.drop_last()) + seq![hex_digit(b.last() as int / 16), hex_digit(b.last() as int % 16)]
    }
}

/// The text a record's `prev_sha256` field carries for the line `i` of a ledger:
/// `genesis` for the first, else the hex SHA-256 of the line before.
pub open spec fn expected_prev(lines: Seq<Seq<u8>>, i: int) -> Seq<char> {
    if i == 0 {
        "genesis"@
    } else {
        hex_text(sha256_of(lines[i - 1]))
    }
}

/// The chain holds: every line parsed as a record, and every record's `prev_sha256` is the
/// expected one (`prevs[i]` is `None` where line `i` did not parse).
pub open spec fn chain_holds(lines: Seq<Seq<u8>>, prevs: Seq<Option<Seq<char>>>) -> bool {
    &&& lines.len() == prevs.len()
    &&& forall|i: int| 0 <= i < lines.len() ==> #[trigger] prevs[i] == Some(expected_prev(lines, i))
}

/// Splitting on `\n`, with the bytes of the current line so far in `cur`; empty lines drop.
pub open spec fn split_lines(c: Seq<u8>, cur: Seq<u8>) -> Seq<Seq<u8>>
    decreases c.len(),
{
    if c.len() == 0 {
        if cur.len() > 0 { seq![cur] } else { Seq::empty() }
    } else if c[0] == 10u8 {
        (if cur.len() > 0 { seq![cur] } else { Seq::empty() }) + split_lines(c.drop_first(), Seq::empty())
    } else {
        split_lines(c.drop_first(), cur.push(c[0]))
    }
}

/// The non-empty lines of a file, without their `\n`, in order.
pub open spec fn raw_lines_spec(content: Seq<u8>) -> Seq<Seq<u8>> {
    split_lines(content, Seq::empty())
}

/// Views of a list of byte vectors.
pub open spec fn bytes_views(v: Seq<Vec<u8>>) -> Seq<Seq<u8>> {
    v.map_values(|x: Vec<u8>| x@)
}

/// Views of a list of optional strings.
pub open spec fn opt_text_views(v: Seq<Option<String>>) -> Seq<Option<Seq<char>>> {
    v.map_values(|x: Option<String>| match x { Some(s) => Some(s@), None => None })
}

/// The non-empty lines of the file's bytes, without the `\n`, in order.
pub fn raw_lines(content: &[u8]) -> (r: Vec<Vec<u8>>)
    ensures
        bytes_views(r@) == raw_lines_spec(content@),
{
    let mut out: Vec<Vec<u8>> = Vec::new();
    let mut cur: Vec<u8> = Vec::new();
    let mut i: usize = 0;
    proof {
        assert(content@.subrange(0, content@.len() as int) =~= content@);
        assert(bytes_views(out@) + split_lines(content@, cur@) =~= raw_lines_spec(content@));
    }
    while i < content.len()
        invariant
            i <= content@.len(),
            bytes_views(out@) + split_lines(content@.subrange(i as int, content@.len() as int), cur@)
                == raw_lines_spec(content@),
        decreases content@.len() - i,
    {
        let ghost rest = content@.subrange(i as int, content@.len() as int);
        assert(rest.drop_first() =~= content@.subrange(i as int + 1, content@.len() as int));
        let b = content[i];
        if b == 10u8 {
            let ghost tail = split_lines(rest.drop_first(), Seq::empty());
            if cur.len() > 0 {
                let ghost before = bytes_views(out@);
                let ghost c = cur@;
                out.push(cur);
                assert(bytes_views(out@) =~= before.push(c));
                assert(before + (seq![c] + tail) =~= before.push(c) + tail);
            } else {
                assert(bytes_views(out@) + (Seq::<Seq<u8>>::empty() + tail) =~= bytes_views(out@) + tail);
            }
            cur = Vec::new();
        } else {
            cur.push(b);
        }
        i = i + 1;
    }
    proof {
        let tail = split_lines(content@.subrange(i as int, content@.len() as int), cur@);
        assert(content@.subrange(i as int, content@.len() as int).len() == 0);
        if cur@.len() > 0 {
            assert(tail == seq![cur@]);
        } else {
            assert(tail =~= Seq::<Seq<u8>>::empty());
            assert(bytes_views(out@) + tail =~= bytes_views(out@));
        }
    }
    if cur.len() > 0 {
        let ghost before = bytes_views(out@);
        let ghost c = cur@;
        out.push(cur);
        assert(bytes_views(out@) =~= before.push(c));
        assert(before + seq![c] =~= before.push(c));
    }
    out
}

/// Lower-case hexadecimal text of bytes.
pub fn hex_lower(bytes: &[u8]) -> (r: String)
    ensures
        r@ == hex_text(bytes@),
{
    let digits = HEX_DIGITS;
    proof {
        reveal_strlit("0123456789abcdef");
    }
    assert(digits@.len() == 16);
    let mut s = String::new();
    let mut i: usize = 0;
    proof {
        assert(bytes@.subrange(0, 0) =~= Seq::<u8>::empty());
        assert(s@ =~= hex_text(Seq::<u8>::empty()));
    }
    while i < bytes.len()
        invariant
            i <= bytes@.len(),
            digits@ == HEX_DIGITS@,
            digits@.len() == 16,
            forall|n: int| 0 <= n < 16 ==> #[trigger] digits@[n] == hex_digit(n),
            s@ == hex_text(bytes@.subrange(0, i as int)),
        decreases bytes@.len() - i,
    {
        let b = bytes[i];
        let hi = (b / 16) as usize;
        let lo = (b % 16) as usize;
        s.append(digits.substring_char(hi, hi + 1));
        s.append(digits.substring_char(lo, lo + 1));
        proof {
            let pre = bytes@.subrange(0, i as int + 1);
            assert(pre.drop_last() =~= bytes@.subrange(0, i as int));
            assert(pre.last() == b);
            assert(digits@.subrange(hi as int, hi as int + 1) =~= seq![hex_digit(hi as int)]);
            assert(digits@.subrange(lo as int, lo as int + 1) =~= seq![hex_digit(lo as int)]);
            assert(s@ =~= hex_text(pre));
        }
        i = i + 1;
    }
    assert(bytes@.subrange(0, bytes@.len() as int) =~= bytes@);
    s
}

/// Lower-case hex SHA-256 of the bytes.
pub fn sha256_hex(bytes: &[u8]) -> (r: String)
    ensures
        r@ == hex_text(sha256_of(bytes@)),
{
    let d = sha256_digest(bytes);
    hex_lower(d.as_slice())
}

/// Check the hash chain over the file's lines and the `prev_sha256` each line's record
/// carries (`None` where the line did not parse as a record): true exactly when every line
/// parsed and carries the expected hash.
pub fn verify_chain_lines(lines: &Vec<Vec<u8>>, prevs: &Vec<Option<String>>) -> (r: bool)
    requires
        lines@.len() == prevs@.len(),
    ensures
        r == chain_holds(bytes_views(lines@), opt_text_views(prevs@)),
{
    let ghost lv = bytes_views(lines@);
    let ghost pv = opt_text_views(prevs@);
    let mut expected = "genesis".to_owned();
    proof {
        reveal_strlit("genesis");
    }
    let mut i: usize = 0;
    while i < lines.len()
        invariant
            i <= lines@.len(),
            lines@.len() == prevs@.len(),
            lv == bytes_views(lines@),
            pv == opt_text_views(prevs@),
            expected@ == expected_prev(lv, i as int),
            forall|j: int| 0 <= j < i ==> #[trigger] pv[j] == Some(expected_prev(lv, j)),
        decreases lines@.len() - i,
    {
        match &prevs[i] {
            None => {
                assert(pv[i as int] is None);
                return false;
            },
            Some(p) => {
                if !crate::signals::str_eq(p.as_str(), expected.as_str()) {
                    assert(pv[i as int] != Some(expected_prev(lv, i as int)));
                    return false;
                }
            },
        }
        expected = sha256_hex(lines[i].as_slice());
        i = i + 1;
    }
    true
}

/// The `prev_sha256` the next appended record carries: the hex SHA-256 of the file's last
/// non-empty line, or `genesis` for an empty ledger.
pub fn next_prev_sha256(content: &[u8]) -> (r: String)
    ensures
        r@ == expected_prev(raw_lines_spec(content@), raw_lines_spec(content@).len() as int),
{
    let lines = raw_lines(content);
    let n = lines.len();
    proof {
        reveal_strlit("genesis");
        assert(bytes_views(lines@).len() == lines@.len());
    }
    if n == 0 {
        "genesis".to_owned()
    } else {
        assert(bytes_views(lines@)[n as int - 1] == lines@[n as int - 1]@);
        sha256_hex(lines[n - 1].as_slice())
    }
}

proof fn lemma_split_concat(a: Seq<u8>, b: Seq<u8>, cur: Seq<u8>)
    requires
        (a.len() == 0 && cur.len() == 0) || (a.len() > 0 && a.last() == 10u8),
    ensures
        split_lines(a + b, cur) == split_lines(a, cur) + split_lines(b, Seq::empty()),
    decreases a.len(),
{
    if a.len() == 0 {
        assert(cur =~= Seq::<u8>::empty());
        assert(a + b =~= b);
        assert(split_lines(a, cur) =~= Seq::<Seq<u8>>::empty());
        assert(Seq::<Seq<u8>>::empty() + split_lines(b, Seq::empty()) =~= split_lines(b, Seq::empty()));
    } else {
        let t = a.drop_first();
        assert((a + b).drop_first() =~= t + b);
        assert((a + b)[0] == a[0]);
        let e = if cur.len() > 0 { seq![cur] } else { Seq::<Seq<u8>>::empty() };
        if a[0] == 10u8 {
            assert(split_lines(a + b, cur) == e + split_lines(t + b, Seq::empty()));
            assert(split_lines(a, cur) == e + split_lines(t, Seq::empty()));
            if t.len() == 0 {
                assert(t + b =~= b);
                assert(split_lines(t, Seq::empty()) =~= Seq::<Seq<u8>>::empty());
                assert(e + Seq::<Seq<u8>>::empty() =~= e);
            } else {
                assert(t.last() == a.last());
                lemma_split_concat(t, b, Seq::empty());
                assert(e + (split_lines(t, Seq::empty()) + split_lines(b, Seq::empty())) =~= (e + split_lines(t, Seq::empty()))
                    + split_lines(b, Seq::empty()));
            }
        } else {
            assert(t.len() > 0);
            assert(t.last() == a.last());
            assert(split_lines(a + b, cur) == split_lines(t + b, cur.push(a[0])));
            assert(split_lines(a, cur) == split_lines(t, cur.push(a[0])));
            lemma_split_concat(t, b, cur.push(a[0]));
        }
    }
}

proof fn lemma_split_one_line(line: Seq<u8>, cur: Seq<u8>)
    requires
        cur.len() + line.len() > 0,
        forall|i: int| 0 <= i < line.len() ==> line[i] != 10u8,
    ensures
        split_lines(line.push(10u8), cur) == seq![cur + line],
    decreases line.len(),
{
    if line.len() == 0 {
        assert(line.push(10u8) =~= seq![10u8]);
        assert(seq![10u8].drop_first() =~= Seq::<u8>::empty());
        assert(split_lines(seq![10u8], cur) == seq![cur] + split_lines(Seq::<u8>::empty(), Seq::empty()));
        assert(cur + line =~= cur);
        assert(seq![cur] + Seq::<Seq<u8>>::empty() =~= seq![cur]);
    } else {
        let t = line.drop_first();
        assert(line.push(10u8).drop_first() =~= t.push(10u8));
        assert(line.push(10u8)[0] == line[0]);
        assert(split_lines(line.push(10u8), cur) == split_lines(t.push(10u8), cur.push(line[0])));
        assert forall|i: int| 0 <= i < t.len() implies t[i] != 10u8 by {
            assert(t[i] == line[i + 1]);
        }
        lemma_split_one_line(t, cur.push(line[0]));
        assert(cur.push(line[0]) + t =~= cur + line);
    }
}

/// Appending keeps the chain: take a ledger file that is empty or ends with a newline and
/// whose lines form a valid chain; append one record line (non-empty, without a newline)
/// whose `prev_sha256` is what `next_prev_sha256` gives for the file, plus its newline.
/// The old file stays a byte prefix of the new one (append-only), the new file's lines are
/// the old ones followed by the new line, and they form a valid chain again.
pub proof fn law_append_keeps_chain(content: Seq<u8>, prevs: Seq<Option<Seq<char>>>, line: Seq<u8>)
    requires
        content.len() == 0 || content.last() == 10u8,
        line.len() > 0,
        forall|i: int| 0 <= i < line.len() ==> line[i] != 10u8,
        chain_holds(raw_lines_spec(content), prevs),
    ensures
        (content + line.push(10u8)).subrange(0, content.len() as int) == content,
        raw_lines_spec(content + line.push(10u8)) == raw_lines_spec(content).push(line),
        chain_holds(
            raw_lines_spec(content + line.push(10u8)),
            prevs.push(Some(expected_prev(raw_lines_spec(content), raw_lines_spec(content).len() as int))),
        ),
{
    let old_lines = raw_lines_spec(content);
    assert((content + line.push(10u8)).subrange(0, content.len() as int) =~= content);
    lemma_split_concat(content, line.push(10u8), Seq::empty());
    lemma_split_one_line(line, Seq::empty());
    assert(Seq::<u8>::empty() + line =~= line);
    assert(old_lines + seq![line] =~= old_lines.push(line));
    let new_lines = old_lines.push(line);
    let np = prevs.push(Some(expected_prev(old_lines, old_lines.len() as int)));
    assert forall|i: int| 0 <= i < new_lines.len() implies #[trigger] np[i] == Some(expected_prev(new_lines, i)) by {
        if i < old_lines.len() {
            assert(np[i] == prevs[i]);
            if i > 0 {
                assert(new_lines[i - 1] == old_lines[i - 1]);
            }
        } else {
            if i > 0 {
                assert(new_lines[i - 1] == old_lines[i - 1]);
            }
        }
    }
}

proof fn lemma_hex_text_len(b: Seq<u8>)
    ensures
        hex_text(b).len() == 2 * b.len(),
    decreases b.len(),
{
    if b.len() > 0 {
        lemma_hex_text_len(b.drop_last());
    }
}

proof fn lemma_hex_digit_injective(m: int, n: int)
    requires
        0 <= m < 16,
        0 <= n < 16,
        hex_digit(m) == hex_digit(n),
    ensures
        m == n,
{
    assert(hex_digit(m) as int == if m < 10 { m + 48 } else { m + 87 });
    assert(hex_digit(n) as int == if n < 10 { n + 48 } else { n + 87 });
}

/// Different bytes have different hex texts.
proof fn lemma_hex_text_injective(a: Seq<u8>, b: Seq<u8>)
    requires
        hex_text(a) == hex_text(b),
    ensures
        a == b,
    decreases a.len(),
{
    lemma_hex_text_len(a);
    lemma_hex_text_len(b);
    if a.len() == 0 {
        assert(a =~= b);
    } else {
        let ha = hex_text(a.drop_last());
        let hb = hex_text(b.drop_last());
        lemma_hex_text_len(a.drop_last());
        lemma_hex_text_len(b.drop_last());
        let n = ha.len() as int;
        let da = seq![hex_digit(a.last() as int / 16), hex_digit(a.last() as int % 16)];
        let db = seq![hex_digit(b.last() as int / 16), hex_digit(b.last() as int % 16)];
        assert(hex_text(a) == ha + da);
        assert(hex_text(b) == hb + db);
        assert(hex_text(a)[n] == da[0] && hex_text(a)[n + 1] == da[1]);
        assert(hex_text(b)[n] == db[0] && hex_text(b)[n + 1] == db[1]);
        lemma_hex_digit_injective(a.last() as int / 16, b.last() as int / 16);
        lemma_hex_digit_injective(a.last() as int % 16, b.last() as int % 16);
        assert(a.last() == b.last());
        assert(ha =~= hex_text(a).subrange(0, n));
        assert(hb =~= hex_text(b).subrange(0, n));
        lemma_hex_text_injective(a.drop_last(), b.drop_last());
        assert(a =~= a.drop_last().push(a.last()));
        assert(b =~= b.drop_last().push(b.last()));
    }
}

/// Tampering shows: in a ledger whose chain holds, replace line `i` by other bytes, the
/// other lines (and what they parse to) unchanged. When the record's own `prev_sha256` now
/// reads otherwise (or the line no longer parses), or the line is not the last and its
/// SHA-256 changed, the chain no longer holds.
pub proof fn law_tampering_breaks_chain(lines: Seq<Seq<u8>>, prevs: Seq<Option<Seq<char>>>, i: int, edited: Seq<u8>, edited_prev: Option<Seq<char>>)
    requires
        chain_holds(lines, prevs),
        0 <= i < lines.len(),
        edited_prev != prevs[i] || (i + 1 < lines.len() && sha256_of(edited) != sha256_of(lines[i])),
    ensures
        !chain_holds(lines.update(i, edited), prevs.update(i, edited_prev)),
{
    let nl = lines.update(i, edited);
    let np = prevs.update(i, edited_prev);
    if edited_prev != prevs[i] {
        assert(prevs[i] == Some(expected_prev(lines, i)));
        if i > 0 {
            assert(nl[i - 1] == lines[i - 1]);
        }
        assert(expected_prev(nl, i) == expected_prev(lines, i));
        assert(np[i] != Some(expected_prev(nl, i)));
    } else {
        assert(prevs[i + 1] == Some(expected_prev(lines, i + 1)));
        assert(np[i + 1] == prevs[i + 1]);
        if np[i + 1] == Some(expected_prev(nl, i + 1)) {
            assert(hex_text(sha256_of(edited)) == hex_text(sha256_of(lines[i])));
            lemma_hex_text_injective(sha256_of(edited), sha256_of(lines[i]));
        }
    }
}

/// The bytes of a ledger written by appending these record lines, each with its newline,
/// to an empty file.
pub open spec fn appended_bytes(lines: Seq<Seq<u8>>) -> Seq<u8>
    decreases lines.len(),
{
    if lines.len() == 0 {
        Seq::empty()
    } else {
        appended_bytes(lines.drop_last()) + lines.last().push(10u8)
    }
}

/// A ledger written only by appends verifies: start from an empty file and append record
/// lines one by one (non-empty, without a newline), each carrying as `prev_sha256` what
/// `next_prev_sha256` gave for the file at that moment. The file's lines are then exactly
/// the appended ones and their chain holds, after any number of appends.
pub proof fn law_appends_verify(lines: Seq<Seq<u8>>, prevs: Seq<Option<Seq<char>>>)
    requires
        prevs.len() == lines.len(),
        forall|i: int| 0 <= i < lines.len() ==> (#[trigger] lines[i]).len() > 0,
        forall|i: int, j: int| 0 <= i < lines.len() && 0 <= j < lines[i].len() ==> #[trigger] lines[i][j] != 10u8,
        forall|i: int| 0 <= i < lines.len() ==> #[trigger] prevs[i] == Some(expected_prev(
            raw_lines_spec(appended_bytes(lines.subrange(0, i))),
            raw_lines_spec(appended_bytes(lines.subrange(0, i))).len() as int,
        )),
    ensures
        raw_lines_spec(appended_bytes(lines)) == lines,
        chain_holds(raw_lines_spec(appended_bytes(lines)), prevs),
    decreases lines.len(),
{
    if lines.len() == 0 {
        assert(raw_lines_spec(Seq::empty()) =~= Seq::<Seq<u8>>::empty());
    } else {
        let n = lines.len() - 1;
        let d = lines.drop_last();
        let pd = prevs.drop_last();
        assert forall|i: int| 0 <= i < d.len() implies (#[trigger] d[i]).len() > 0 by {
            assert(d[i] == lines[i]);
        }
        assert forall|i: int, j: int| 0 <= i < d.len() && 0 <= j < d[i].len() implies #[trigger] d[i][j] != 10u8 by {
            assert(d[i] == lines[i]);
            assert(lines[i][j] != 10u8);
        }
        assert forall|i: int| 0 <= i < d.len() implies #[trigger] pd[i] == Some(expected_prev(
            raw_lines_spec(appended_bytes(d.subrange(0, i))),
            raw_lines_spec(appended_bytes(d.subrange(0, i))).len() as int,
        )) by {
            assert(d.subrange(0, i) =~= lines.subrange(0, i));
            assert(pd[i] == prevs[i]);
        }
        law_appends_verify(d, pd);
        let content = appended_bytes(d);
        let line = lines[n];
        assert(lines.last() == line);
        assert(content.len() == 0 || content.last() == 10u8) by {
            if d.len() > 0 {
                assert(content == appended_bytes(d.drop_last()) + d.last().push(10u8));
            }
        }
        assert forall|j: int| 0 <= j < line.len() implies line[j] != 10u8 by {
            assert(lines[n][j] != 10u8);
        }
        assert(lines.subrange(0, n) =~= d);
        law_append_keeps_chain(content, pd, line);
        assert(d.push(line) =~= lines);
        assert(pd.push(prevs[n]) =~= prevs);
    }
}

/// Count of a family's trials. Its fields are private: the only constructor is the
/// ledger's count, so a deflated Sharpe cannot take its trial count from a literal.
#[derive(Clone, Debug)]
pub struct LedgerTrialCount {
    n: u64,
    family: String,
}

impl LedgerTrialCount {
    pub closed spec fn count(&self) -> u64 {
        self.n
    }

    pub closed spec fn family_text(&self) -> Seq<char> {
        self.family@
    }

    /// The number of trials.
    pub fn n(&self) -> (r: u64)
        ensures
            r == self.count(),
    {
        self.n
    }

    /// The family counted.
    pub fn family(&self) -> (r: &str)
        ensures
            r@ == self.family_text(),
    {
        self.family.as_str()
    }

    pub(crate) fn new_from_ledger(n: u64, family: String) -> (r: Self)
        ensures
            r.count() == n,
            r.family_text() == family@,
    {
        LedgerTrialCount { n, family }
    }
}

/// The fields of a ledger record that the counts read.
#[derive(Clone, Debug)]
pub struct TrialKey {
    pub signal_family: String,
    pub code_hash: String,
}

/// Number of records of the family (and, when given, of the code hash).
pub open spec fn count_trials(records: Seq<TrialKey>, family: Seq<char>, code_hash: Option<Seq<char>>) -> nat
    decreases records.len(),
{
    if records.len() == 0 {
        0
    } else {
        let r = records.last();
        let hit = r.signal_family@ == family && match code_hash {
            Some(h) => r.code_hash@ == h,
            None => true,
        };
        count_trials(records.drop_last(), family, code_hash) + if hit { 1nat } else { 0nat }
    }
}

/// A code-hash epoch never holds more trials than its family: the count for one code hash
/// is at most the family's count over the whole ledger.
pub proof fn law_epoch_count_within_family(records: Seq<TrialKey>, family: Seq<char>, code_hash: Seq<char>)
    ensures
        count_trials(records, family, Some(code_hash)) <= count_trials(records, family, None),
    decreases records.len(),
{
    if records.len() > 0 {
        law_epoch_count_within_family(records.drop_last(), family, code_hash);
    }
}

fn count_matching(records: &Vec<TrialKey>, family: &str, code_hash: Option<&str>) -> (r: u64)
    ensures
        r == count_trials(records@, family@, match code_hash { Some(h) => Some(h@), None => None }),
{
    let ghost ch = match code_hash { Some(h) => Some(h@), None => None };
    let mut n: u64 = 0;
    let mut i: usize = 0;
    while i < records.len()
        invariant
            i <= records@.len(),
            n == count_trials(records@.subrange(0, i as int), family@, ch),
            n <= i,
            ch == match code_hash { Some(h) => Some(h@), None => None },
        decreases records@.len() - i,
    {
        let rec = &records[i];
        let fam_ok = crate::signals::str_eq(rec.signal_family.as_str(), family);
        let hit = fam_ok && match code_hash {
            Some(h) => crate::signals::str_eq(rec.code_hash.as_str(), h),
            None => true,
        };
        proof {
            let pre = records@.subrange(0, i as int + 1);
            assert(pre.drop_last() =~= records@.subrange(0, i as int));
            assert(pre.last() == records@[i as int]);
        }
        if hit {
            n = n + 1;
        }
        i = i + 1;
    }
    assert(records@.subrange(0, records@.len() as int) =~= records@);
    n
}

/// The trials ledger at a path. Every write goes through an append of the caller; there is
/// no API to delete or rewrite a record.
#[derive(Clone, Debug)]
pub struct Ledger {
    path: String,
}

impl Ledger {
    pub closed spec fn path_text(&self) -> Seq<char> {
        self.path@
    }

    /// The ledger kept at `path`.
    pub fn open(path: &str) -> (r: Self)
        ensures
            r.path_text() == path@,
    {
        Ledger { path: path.to_owned() }
    }

    /// The ledger's path.
    pub fn path(&self) -> (r: &str)
        ensures
            r@ == self.path_text(),
    {
        self.path.as_str()
    }

    /// The one source of the trial count of a deflated Sharpe: the number of the ledger's
    /// records (read by the caller, in file order) of the family.
    pub fn trial_count(&self, records: &Vec<TrialKey>, family: &str) -> (r: LedgerTrialCount)
        ensures
            r.count() == count_trials(records@, family@, None),
            r.family_text() == family@,
    {
        let n = count_matching(records, family, None);
        LedgerTrialCount::new_from_ledger(n, family.to_owned())
    }

    /// The trial count of the family within one code-hash epoch: older records of the
    /// append-only ledger are not rewritten and must not count toward a new semantics.
    pub fn trial_count_for_code_hash(&self, records: &Vec<TrialKey>, family: &str, code_hash: &str) -> (r: LedgerTrialCount)
        ensures
            r.count() == count_trials(records@, family@, Some(code_hash@)),
            r.family_text() == family@,
    {
        let n = count_matching(records, family, Some(code_hash));
        LedgerTrialCount::new_from_ledger(n, family.to_owned())
    }
}

} // verus!
