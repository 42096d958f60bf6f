//! Pre-registration: the final validation refuses to run without a hypothesis card whose
//! section of falsification criteria (headed «критерии фальсификации», in any letter case)
//! holds at least one item. The card is read by the caller; here its text is checked.

use vstd::prelude::*;

use crate::sim::fees::is_whitespace_char;
use crate::types::RcError;

verus! {

/// The heading of the falsification criteria, in lower case.
pub open spec fn marker() -> Seq<char> {
    "критерии фальсификации"@
}

/// Lower case of the letters that can spell the heading: Cyrillic and ASCII capitals map
/// to their small letters, every other character to itself.
pub open spec fn lower(c: char) -> char {
    if ('А' <= c && c <= 'Я') || ('A' <= c && c <= 'Z') {
        ((c as u32) + 32) as char
    } else if c == 'Ё' {
        'ё'
    } else {
        c
    }
}

/// The heading occurs at position `i`, ignoring case.
pub open spec fn marker_at(s: Seq<char>, i: int) -> bool {
    &&& 0 <= i
    &&& i + marker().len() <= s.len()
    &&& forall|k: int| 0 <= k < marker().len() ==> lower(#[trigger] s[i + k]) == marker()[k]
}

/// First occurrence of the heading at or after `from`.
pub open spec fn first_marker(s: Seq<char>, from: int) -> Option<int>
    decreases s.len() - from,
{
    if from < 0 || from + marker().len() > s.len() {
        None
    } else if marker_at(s, from) {
        Some(from)
    } else {
        first_marker(s, from + 1)
    }
}

/// End of the line that holds `pos`: the next `\n` at or after `pos`, or the end of text.
pub open spec fn line_end(s: Seq<char>, pos: int) -> int
    decreases s.len() - pos,
{
    if pos >= s.len() || pos < 0 {
        s.len() as int
    } else if s[pos] == '\n' {
        pos
    } else {
        line_end(s, pos + 1)
    }
}

/// First character at or after `p`, before `e`, that is not whitespace (`e` if none).
pub open spec fn first_non_ws(s: Seq<char>, p: int, e: int) -> int
    decreases e - p,
{
    if p >= e || p < 0 || p >= s.len() {
        e
    } else if !is_whitespace_char(s[p]) {
        p
    } else {
        first_non_ws(s, p + 1, e)
    }
}

/// A line whose text starts (after leading whitespace at `p`) with `## `: the next heading.
pub open spec fn heading_at(s: Seq<char>, p: int, e: int) -> bool {
    p + 3 <= e && s[p] == '#' && s[p + 1] == '#' && s[p + 2] == ' '
}

/// A list item: its first non-whitespace character is `-`, `*` or an ASCII digit.
pub open spec fn item_char(c: char) -> bool {
    c == '-' || c == '*' || ('0' <= c && c <= '9')
}

/// Scanning the lines from `pos` on: an item before the next heading.
pub open spec fn item_before_heading(s: Seq<char>, pos: int) -> bool
    decreases s.len() - pos,
{
    if pos >= s.len() || pos < 0 {
        false
    } else {
        let e = line_end(s, pos);
        proof {
            lemma_line_end_bounds(s, pos);
        }
        let p = first_non_ws(s, pos, e);
        if p < e && heading_at(s, p, e) {
            false
        } else if p < e && item_char(s[p]) {
            true
        } else if e >= s.len() {
            false
        } else {
            item_before_heading(s, e + 1)
        }
    }
}

/// The card holds the heading, and an item follows it (on the lines after the heading's
/// own line) before the next `## ` heading.
pub open spec fn card_ok(s: Seq<char>) -> bool {
    match first_marker(s, 0) {
        Some(i) => {
            let after = i + marker().len();
            item_before_heading(s, line_end(s, after) + 1)
        },
        None => false,
    }
}

pub proof fn lemma_line_end_bounds(s: Seq<char>, pos: int)
    requires
        0 <= pos,
    ensures
        pos <= line_end(s, pos) <= s.len() || (pos > s.len() && line_end(s, pos) == s.len()),
        line_end(s, pos) < s.len() ==> s[line_end(s, pos)] == '\n',
    decreases s.len() - pos,
{
    if pos < s.len() && s[pos] != '\n' {
        lemma_line_end_bounds(s, pos + 1);
    }
}

proof fn lemma_first_non_ws_bounds(s: Seq<char>, p: int, e: int)
    requires
        0 <= p <= e <= s.len(),
    ensures
        p <= first_non_ws(s, p, e) <= e,
        first_non_ws(s, p, e) < e ==> !is_whitespace_char(s[first_non_ws(s, p, e)]),
    decreases e - p,
{
    if p < e && is_whitespace_char(s[p]) {
        lemma_first_non_ws_bounds(s, p + 1, e);
    }
}

fn is_ws(c: char) -> (r: bool)
    ensures
        r == is_whitespace_char(c),
{
    c == ' ' || c == '\t' || c == '\n' || c == '\r' || c == '\u{0B}' || c == '\u{0C}' || c == '\u{85}'
        || c == '\u{A0}' || c == '\u{1680}' || ('\u{2000}' <= c && c <= '\u{200A}') || c == '\u{2028}'
        || c == '\u{2029}' || c == '\u{202F}' || c == '\u{205F}' || c == '\u{3000}'
}

fn lower_matches(c: char, m: char) -> (r: bool)
    ensures
        r == (lower(c) == m),
{
    if ('А' <= c && c <= 'Я') || ('A' <= c && c <= 'Z') {
        (c as u32) + 32 == (m as u32)
    } else if c == 'Ё' {
        m == 'ё'
    } else {
        c == m
    }
}

fn find_line_end(s: &str, n: usize, pos: usize) -> (r: usize)
    requires
        n == s@.len(),
        pos <= n,
    ensures
        r == line_end(s@, pos as int),
        pos <= r <= n,
{
    let mut i = pos;
    while i < n
        invariant
            pos <= i <= n,
            n == s@.len(),
            line_end(s@, pos as int) == line_end(s@, i as int),
        decreases n - i,
    {
        if s.get_char(i) == '\n' {
            return i;
        }
        i = i + 1;
    }
    i
}

fn find_non_ws(s: &str, n: usize, p: usize, e: usize) -> (r: usize)
    requires
        n == s@.len(),
        p <= e <= n,
    ensures
        r == first_non_ws(s@, p as int, e as int),
        p <= r <= e,
{
    let mut i = p;
    while i < e
        invariant
            p <= i <= e <= n,
            n == s@.len(),
            first_non_ws(s@, p as int, e as int) == first_non_ws(s@, i as int, e as int),
        decreases e - i,
    {
        if !is_ws(s.get_char(i)) {
            return i;
        }
        i = i + 1;
    }
    i
}

/// Check a hypothesis card's text (see `card_ok`): a card without the heading, or with an
/// empty criteria section, is `PreRegistrationMissing`.
pub fn check_preregistration(card: &str) -> (r: Result<(), RcError>)
    ensures
        r is Ok <==> card_ok(card@),
        r matches Err(e) ==> e is PreRegistrationMissing,
{
    let n = card.unicode_len();
    let mk = "критерии фальсификации";
    proof {
        reveal_strlit("критерии фальсификации");
    }
    let m = mk.unicode_len();
    assert(m == 22);
    let mut found: Option<usize> = None;
    let mut i: usize = 0;
    while i <= n && m <= n - i && found.is_none()
        invariant
            i <= n,
            n == card@.len(),
            m == marker().len(),
            mk@ == marker(),
            found matches Some(f) ==> first_marker(card@, 0) == Some(f as int) && f + m <= n,
            found is None ==> first_marker(card@, 0) == first_marker(card@, i as int),
            found is None ==> i <= n,
        decreases n + 2 - i - (if found is Some { 1int } else { 0int }),
    {
        let mut k: usize = 0;
        let mut all = true;
        while k < m && all
            invariant
                n == card@.len(),
                m == marker().len(),
                mk@ == marker(),
                i + m <= n,
                k <= m,
                all == (forall|j: int| 0 <= j < k ==> lower(#[trigger] card@[i + j]) == marker()[j]),
            decreases m - k,
        {
            if !lower_matches(card.get_char(i + k), mk.get_char(k)) {
                all = false;
            }
            k = k + 1;
        }
        if all {
            assert(marker_at(card@, i as int));
            found = Some(i);
        } else {
            assert(!marker_at(card@, i as int));
            i = i + 1;
        }
    }
    let start = match found {
        None => {
            return Err(RcError::PreRegistrationMissing("section «критерии фальсификации» not found".to_owned()));
        },
        Some(f) => f + m,
    };
    let header_end = find_line_end(card, n, start);
    let mut pos: usize = if header_end < n { header_end + 1 } else { n };
    proof {
        if header_end == n {
            assert(item_before_heading(card@, header_end + 1) == false);
        }
    }
    let ghost goal = item_before_heading(card@, line_end(card@, start as int) + 1);
    assert(goal == item_before_heading(card@, pos as int));
    while pos < n
        invariant
            pos <= n,
            n == card@.len(),
            goal == item_before_heading(card@, pos as int),
            goal == card_ok(card@),
        decreases n - pos,
    {
        let e = find_line_end(card, n, pos);
        let p = find_non_ws(card, n, pos, e);
        if p < e && e - p >= 3 && card.get_char(p) == '#' && card.get_char(p + 1) == '#' && card.get_char(p + 2) == ' ' {
            return Err(RcError::PreRegistrationMissing("criteria section is empty".to_owned()));
        }
        if p < e {
            let c = card.get_char(p);
            if c == '-' || c == '*' || ('0' <= c && c <= '9') {
                return Ok(());
            }
        }
        pos = if e < n { e + 1 } else { n };
        proof {
            if e == n {
                assert(item_before_heading(card@, e + 1) == false);
            }
        }
    }
    Err(RcError::PreRegistrationMissing("criteria section is empty".to_owned()))
}

} // verus!
