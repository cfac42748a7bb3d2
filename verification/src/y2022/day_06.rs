//! Tuning trouble: the first run of distinct characters in a signal.

use crate::number::{decimal, format_u64};
use crate::text::{
    after_bytes, byte_len, bytes, chars, cut, cut_at, lemma_bytes_grow, skip_bytes, trim, trimmed,
    width_of,
};
use vstd::prelude::*;

verus! {

/// How many of the first `n` characters of `s` do not stand earlier in `s`: the number of
/// different characters among them.
pub open spec fn firsts(s: Seq<char>, n: int) -> int
    decreases n,
{
    if n <= 0 {
        0
    } else {
        firsts(s, n - 1) + if s.take(n - 1).contains(s[n - 1]) {
            0int
        } else {
            1int
        }
    }
}

/// Whether `s` holds as many different characters as it takes up bytes.
pub open spec fn fresh(s: Seq<char>) -> bool {
    firsts(s, s.len() as int) == bytes(s, s.len() as int)
}

/// Tells whether the character at `k` stands earlier in `v`.
fn seen(v: &Vec<char>, k: usize) -> (r: bool)
    requires
        k < v.len(),
    ensures
        r == v@.take(k as int).contains(v@[k as int]),
{
    let mut i: usize = 0;
    while i < k
        invariant
            0 <= i <= k < v.len(),
            forall|j: int| 0 <= j < i ==> v@[j] != v@[k as int],
        decreases k - i,
    {
        if v[i] == v[k] {
            assert(v@.take(k as int)[i as int] == v@[k as int]);
            return true;
        }
        i += 1;
    }
    false
}

/// Tells whether the window holds as many different characters as it takes up bytes.
pub fn no_duplicate(window: &str) -> (r: bool)
    ensures
        r == fresh(window@),
{
    let v = chars(window);
    let mut count: usize = 0;
    let mut k: usize = 0;
    while k < v.len()
        invariant
            v@ == window@,
            0 <= k <= v.len(),
            count == firsts(window@, k as int),
            count <= k,
        decreases v.len() - k,
    {
        if !seen(&v, k) {
            count += 1;
        }
        k += 1;
    }
    match byte_len(window) {
        Some(n) => count == n,
        None => false,
    }
}

/// The search for a marker of `w` bytes from character `k` of `s` on: the byte at which the
/// first window of `w` bytes with no character twice ends, with what follows it; the inner
/// `None` where there is no such window, the outer one where a window cannot be cut out of
/// `s` or `w` is nought.
pub open spec fn marker_from(s: Seq<char>, w: int, k: int) -> Option<Option<(int, Seq<char>)>>
    decreases s.len() - k,
{
    let j = bytes(s, k);
    if k < 0 || k >= s.len() {
        Some(None)
    } else if w <= 0 {
        None
    } else if j < w - 1 {
        marker_from(s, w, k + 1)
    } else {
        match after_bytes(s, j - (w - 1)) {
            None => None,
            Some(tail) => match cut(tail, w) {
                None => None,
                Some(p) => if fresh(p.0) {
                    Some(Some((j, p.1)))
                } else {
                    marker_from(s, w, k + 1)
                },
            },
        }
    }
}

/// The search for a marker of `w` bytes in `s`; there is none in a signal shorter than `w`,
/// and no search in one too long for its positions to be held.
pub open spec fn marker(s: Seq<char>, w: int) -> Option<Option<(int, Seq<char>)>> {
    if bytes(s, s.len() as int) > usize::MAX {
        None
    } else if bytes(s, s.len() as int) < w {
        Some(None)
    } else {
        marker_from(s, w, 0)
    }
}

/// Finds the first window of `window_size` bytes with no character twice: the byte at which
/// it ends and what follows it. The outer `None` says that the search cannot be made.
pub fn try_get_start_parker_pos<'a>(string: &'a str, window_size: usize) -> (r: Option<
    Option<(usize, &'a str)>,
>)
    ensures
        r is Some == marker(string@, window_size as int) is Some,
        r matches Some(found) ==> {
            &&& found is Some == marker(string@, window_size as int)->0 is Some
            &&& found matches Some(p) ==> marker(string@, window_size as int)->0 == Some(
                (p.0 as int, p.1@),
            ) && p.0 < usize::MAX
        },
{
    let total = match byte_len(string) {
        Some(n) => n,
        None => {
            return None;
        },
    };
    if total < window_size {
        return Some(None);
    }
    let v = chars(string);
    let mut j: usize = 0;
    let mut k: usize = 0;
    while k < v.len()
        invariant
            v@ == string@,
            0 <= k <= v.len(),
            j == bytes(string@, k as int),
            total == bytes(string@, string@.len() as int),
            marker(string@, window_size as int) == marker_from(
                string@,
                window_size as int,
                k as int,
            ),
        decreases v.len() - k,
    {
        proof {
            lemma_bytes_grow(string@, k + 1, string@.len() as int);
        }
        if window_size == 0 {
            return None;
        }
        if j >= window_size - 1 {
            let tail = match skip_bytes(string, j - (window_size - 1)) {
                Some(t) => t,
                None => {
                    return None;
                },
            };
            let parts = match cut_at(tail, window_size) {
                Some(p) => p,
                None => {
                    return None;
                },
            };
            if no_duplicate(parts.0) {
                return Some(Some((j, parts.1)));
            }
        }
        j += width_of(v[k]);
        k += 1;
    }
    Some(None)
}

/// Finds the first window of `window_size` bytes with no character twice: the byte at which
/// it ends and what follows it.
pub fn get_start_parker_pos<'a>(string: &'a str, window_size: usize) -> (r: Option<
    (usize, &'a str),
>)
    requires
        marker(string@, window_size as int) is Some,
    ensures
        r is Some == marker(string@, window_size as int)->0 is Some,
        r matches Some(p) ==> marker(string@, window_size as int)->0 == Some((p.0 as int, p.1@)),
{
    try_get_start_parker_pos(string, window_size).unwrap()
}

/// How many bytes of the signal, white space at its ends apart, have gone by when the first
/// marker of `w` bytes is complete; `None` where there is no marker or no search.
pub open spec fn answer(input: Seq<char>, w: int) -> Option<int> {
    match marker(trimmed(input), w) {
        Some(Some(p)) => Some(p.0 + 1),
        _ => None,
    }
}

/// Finds the end of the first marker of `w` bytes.
fn locate(input: &str, w: usize) -> (r: Option<String>)
    ensures
        r is Some == answer(input@, w as int) is Some,
        r matches Some(t) ==> t@ == decimal(answer(input@, w as int)->0),
{
    match try_get_start_parker_pos(trim(input), w) {
        Some(Some(p)) => Some(format_u64((p.0 + 1) as u64)),
        _ => None,
    }
}

/// The number of bytes gone by when the first four distinct characters have come, if they
/// come.
pub fn try_puzzle_1(input: &str) -> (r: Option<String>)
    ensures
        r is Some == answer(input@, 4) is Some,
        r matches Some(t) ==> t@ == decimal(answer(input@, 4)->0),
{
    locate(input, 4)
}

/// The number of bytes gone by when the first four distinct characters have come.
pub fn puzzle_1(input: &str) -> (r: String)
    requires
        answer(input@, 4) is Some,
    ensures
        r@ == decimal(answer(input@, 4)->0),
{
    try_puzzle_1(input).unwrap()
}

/// The number of bytes gone by when the first fourteen distinct characters have come, if
/// they come.
pub fn try_puzzle_2(input: &str) -> (r: Option<String>)
    ensures
        r is Some == answer(input@, 14) is Some,
        r matches Some(t) ==> t@ == decimal(answer(input@, 14)->0),
{
    locate(input, 14)
}

/// The number of bytes gone by when the first fourteen distinct characters have come.
pub fn puzzle_2(input: &str) -> (r: String)
    requires
        answer(input@, 14) is Some,
    ensures
        r@ == decimal(answer(input@, 14)->0),
{
    try_puzzle_2(input).unwrap()
}

} // verus!
