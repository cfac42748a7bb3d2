//! Reading a text from the left: fixed words and numbers at a position.

use crate::number::{bounded, digit_in, is_digit, read_digits};
use crate::text::{chars, find, match_from, occurs, occurs_at};
use vstd::prelude::*;

verus! {

/// The position after `word`, if it stands in `s` at position `from`.
pub open spec fn tagged(s: Seq<char>, from: int, word: Seq<char>) -> Option<int> {
    if occurs(s, word, from) {
        Some(from + word.len())
    } else {
        None
    }
}

/// Steps over `word`, if it stands in `v` at position `from`.
pub fn tag(v: &Vec<char>, from: usize, word: &str) -> (r: Option<usize>)
    ensures
        r is Some == tagged(v@, from as int, word@) is Some,
        r is Some ==> r->0 == tagged(v@, from as int, word@)->0,
        r is Some ==> from <= r->0 <= v.len(),
{
    let w = chars(word);
    let n = v.len();
    if occurs_at(v, &w, from) {
        assert(from + w.len() <= n);
        Some(from + w.len())
    } else {
        None
    }
}

/// The position after the decimal digits that stand in `s` from position `from` on.
pub open spec fn run_end(s: Seq<char>, from: int) -> int
    decreases s.len() - from,
{
    if from < 0 || from >= s.len() || !is_digit(s[from], 10) {
        from
    } else {
        run_end(s, from + 1)
    }
}

/// `run_end` is the first position from `from` on that holds no digit.
pub proof fn lemma_run_end(s: Seq<char>, from: int, k: int)
    requires
        0 <= from <= k <= s.len(),
        forall|j: int| from <= j < k ==> is_digit(s[j], 10),
        k < s.len() ==> !is_digit(s[k], 10),
    ensures
        run_end(s, from) == k,
    decreases k - from,
{
    if from < k {
        lemma_run_end(s, from + 1, k);
    }
}

/// The number that the digits at position `from` write, and the position after them, if there
/// is a digit and the number is at most `max`. No sign is read.
pub open spec fn natural(s: Seq<char>, from: int, max: int) -> Option<(int, int)> {
    let to = run_end(s, from);
    if 0 <= from < to <= s.len() {
        match bounded(s.subrange(from, to), 10, max) {
            Some(n) => Some((n, to)),
            None => None,
        }
    } else {
        None
    }
}

/// The number that stands at position `from` with or without a sign, and the position after it,
/// if there is a digit and the number lies between `-max - 1` and `max`.
pub open spec fn integer(s: Seq<char>, from: int, max: int) -> Option<(int, int)> {
    if 0 <= from < s.len() && s[from] == '-' {
        match natural(s, from + 1, max + 1) {
            Some((n, to)) => Some((-n, to)),
            None => None,
        }
    } else if 0 <= from < s.len() && s[from] == '+' {
        natural(s, from + 1, max)
    } else {
        natural(s, from, max)
    }
}

/// Reads the digits at position `from`.
pub fn read_natural(v: &Vec<char>, from: usize, max: u64) -> (r: Option<(u64, usize)>)
    ensures
        r is Some == natural(v@, from as int, max as int) is Some,
        r matches Some(p) ==> natural(v@, from as int, max as int) == Some((p.0 as int, p.1 as int)),
        r matches Some(p) ==> from < p.1 <= v.len(),
{
    if from >= v.len() {
        return None;
    }
    let mut to: usize = from;
    while to < v.len() && digit_in(v[to], 10)
        invariant
            from <= to <= v.len(),
            forall|j: int| from <= j < to ==> is_digit(v@[j], 10),
        decreases v.len() - to,
    {
        to += 1;
    }
    proof {
        lemma_run_end(v@, from as int, to as int);
    }
    if to == from {
        return None;
    }
    match read_digits(v, from, to, 10, max) {
        Some(n) => Some((n, to)),
        None => None,
    }
}

/// Reads the number at position `from`, with or without a sign. `max` is at most the largest
/// `i64`.
pub fn read_integer(v: &Vec<char>, from: usize, max: u64) -> (r: Option<(i64, usize)>)
    requires
        max <= i64::MAX,
    ensures
        r is Some == integer(v@, from as int, max as int) is Some,
        r matches Some(p) ==> integer(v@, from as int, max as int) == Some((p.0 as int, p.1 as int)),
        r matches Some(p) ==> from < p.1 <= v.len(),
{
    if from < v.len() && v[from] == '-' {
        match read_natural(v, from + 1, max + 1) {
            Some((n, to)) => Some(((0 - (n as i128)) as i64, to)),
            None => None,
        }
    } else if from < v.len() && v[from] == '+' {
        match read_natural(v, from + 1, max) {
            Some((n, to)) => Some((n as i64, to)),
            None => None,
        }
    } else {
        match read_natural(v, from, max) {
            Some((n, to)) => Some((n as i64, to)),
            None => None,
        }
    }
}

/// The position after the end of a line, if one stands at position `from`: a line feed, or a
/// carriage return with a line feed behind it.
pub open spec fn line_ended(s: Seq<char>, from: int) -> Option<int> {
    if 0 <= from < s.len() && s[from] == '\n' {
        Some(from + 1)
    } else if 0 <= from && from + 1 < s.len() && s[from] == '\r' && s[from + 1] == '\n' {
        Some(from + 2)
    } else {
        None
    }
}

/// Steps over the end of a line, if one stands at position `from`.
pub fn line_ending(v: &Vec<char>, from: usize) -> (r: Option<usize>)
    ensures
        r is Some == line_ended(v@, from as int) is Some,
        r is Some ==> r->0 == line_ended(v@, from as int)->0,
        r is Some ==> from < r->0 <= v.len(),
{
    if from < v.len() && v[from] == '\n' {
        Some(from + 1)
    } else if from < v.len() && v.len() - from >= 2 && v[from] == '\r' && v[from + 1] == '\n' {
        Some(from + 2)
    } else {
        None
    }
}

/// Whether `c` is a blank, a tab, a carriage return or a line feed.
pub open spec fn is_gap(c: char) -> bool {
    c == ' ' || c == '\t' || c == '\r' || c == '\n'
}

/// The position after the blanks, tabs, carriage returns and line feeds that stand in `s` from
/// position `from` on.
pub open spec fn gap_end(s: Seq<char>, from: int) -> int
    decreases s.len() - from,
{
    if from < 0 || from >= s.len() || !is_gap(s[from]) {
        from
    } else {
        gap_end(s, from + 1)
    }
}

/// `gap_end` is the first position from `from` on that holds none of the four characters.
pub proof fn lemma_gap_end(s: Seq<char>, from: int, k: int)
    requires
        0 <= from <= k <= s.len(),
        forall|j: int| from <= j < k ==> is_gap(s[j]),
        k < s.len() ==> !is_gap(s[k]),
    ensures
        gap_end(s, from) == k,
    decreases k - from,
{
    if from < k {
        lemma_gap_end(s, from + 1, k);
    }
}

/// Steps over blanks, tabs, carriage returns and line feeds.
pub fn skip_gap(v: &Vec<char>, from: usize) -> (r: usize)
    requires
        from <= v.len(),
    ensures
        r == gap_end(v@, from as int),
        from <= r <= v.len(),
{
    let mut to: usize = from;
    while to < v.len() && (v[to] == ' ' || v[to] == '\t' || v[to] == '\r' || v[to] == '\n')
        invariant
            from <= to <= v.len(),
            forall|j: int| from <= j < to ==> is_gap(v@[j]),
        decreases v.len() - to,
    {
        to += 1;
    }
    proof {
        lemma_gap_end(v@, from as int, to as int);
    }
    to
}

/// The position after at least one blank, tab, carriage return or line feed at position
/// `from`.
pub open spec fn gapped(s: Seq<char>, from: int) -> Option<int> {
    if 0 <= from < gap_end(s, from) <= s.len() {
        Some(gap_end(s, from))
    } else {
        None
    }
}

/// Steps over at least one blank, tab, carriage return or line feed.
pub fn gap(v: &Vec<char>, from: usize) -> (r: Option<usize>)
    ensures
        r is Some == gapped(v@, from as int) is Some,
        r is Some ==> r->0 == gapped(v@, from as int)->0 && from < r->0 <= v.len(),
{
    if from >= v.len() {
        return None;
    }
    let to = skip_gap(v, from);
    if to > from {
        Some(to)
    } else {
        None
    }
}

/// The first position from `from` on at which `word` stands, if it stands anywhere from there
/// on.
pub open spec fn sought(s: Seq<char>, from: int, word: Seq<char>) -> Option<int> {
    if 0 <= from <= match_from(s, word, from) < s.len() {
        Some(match_from(s, word, from))
    } else {
        None
    }
}

/// Looks for `word` from position `from` on.
pub fn seek(v: &Vec<char>, from: usize, word: &str) -> (r: Option<usize>)
    requires
        word@.len() > 0,
    ensures
        r is Some == sought(v@, from as int, word@) is Some,
        r is Some ==> r->0 == sought(v@, from as int, word@)->0 && from <= r->0 < v.len(),
{
    if from > v.len() {
        return None;
    }
    let w = chars(word);
    let at = find(v, &w, from);
    if at < v.len() {
        Some(at)
    } else {
        None
    }
}

} // verus!
