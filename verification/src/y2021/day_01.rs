//! Sonar sweep: how often the measured depth grows.

use crate::number::{decimal, format_u64, parse_u32s, u32s};
use crate::text::{filled, filled_lines};
use vstd::prelude::*;

verus! {

/// The depths that the lines of the input write, empty lines apart.
pub open spec fn input_of(input: Seq<char>) -> Option<Seq<u32>> {
    u32s(filled(input), filled(input).len() as int)
}

/// Reads a depth from every line that is not empty; `None` where a line writes no number.
pub fn try_load_input(input: &str) -> (r: Option<Vec<u32>>)
    ensures
        r is Some == input_of(input@) is Some,
        r matches Some(v) ==> Some(v@) == input_of(input@),
{
    let rows = filled_lines(input);
    parse_u32s(&rows)
}

/// Reads a depth from every line that is not empty.
pub fn load_input(input: &str) -> (r: Vec<u32>)
    requires
        input_of(input@) is Some,
    ensures
        Some(r@) == input_of(input@),
{
    try_load_input(input).unwrap()
}

/// How many of the first `n` numbers, the first apart, are larger than the one before.
pub open spec fn climbs(s: Seq<u32>, n: int) -> int
    decreases n,
{
    if n <= 1 {
        0
    } else {
        climbs(s, n - 1) + if s[n - 1] > s[n - 2] {
            1int
        } else {
            0int
        }
    }
}

/// Counts the numbers that are larger than the one before.
pub fn count_climbs(s: &Vec<u32>) -> (r: usize)
    ensures
        r == climbs(s@, s@.len() as int),
{
    let mut count: usize = 0;
    let mut i: usize = 1;
    while i < s.len()
        invariant
            1 <= i,
            i <= s.len() || (s.len() == 0 && i == 1),
            count == climbs(s@, i as int),
            count < i,
        decreases s.len() - i,
    {
        if s[i] > s[i - 1] {
            count += 1;
        }
        i += 1;
    }
    assert(climbs(s@, 0) == 0 && climbs(s@, 1) == 0);
    count
}

/// The sums of the first `n` runs of three numbers; `None` where a sum cannot be held.
pub open spec fn sums(s: Seq<u32>, n: int) -> Option<Seq<u32>>
    decreases n,
{
    if n <= 0 {
        Some(Seq::empty())
    } else {
        match sums(s, n - 1) {
            Some(done) => if s[n - 1] + s[n] + s[n + 1] <= u32::MAX {
                Some(done.push((s[n - 1] + s[n] + s[n + 1]) as u32))
            } else {
                None
            },
            None => None,
        }
    }
}

/// Once a sum cannot be held, no longer run of sums can.
pub proof fn lemma_sums_fail(s: Seq<u32>, n: int, m: int)
    requires
        n <= m,
        sums(s, n) is None,
    ensures
        sums(s, m) is None,
    decreases m - n,
{
    if n < m {
        lemma_sums_fail(s, n, m - 1);
    }
}

/// The sums of all runs of three numbers in `s`.
pub open spec fn windows(s: Seq<u32>) -> Option<Seq<u32>> {
    sums(s, s.len() - 2)
}

/// Adds up every run of three numbers.
pub fn sum_windows(s: &Vec<u32>) -> (r: Option<Vec<u32>>)
    ensures
        r is Some == windows(s@) is Some,
        r matches Some(v) ==> Some(v@) == windows(s@),
{
    let mut out: Vec<u32> = Vec::new();
    let mut i: usize = 0;
    while i + 2 < s.len()
        invariant
            i + 2 <= s.len() || i == 0,
            Some(out@) == sums(s@, i as int),
        decreases s.len() - i,
    {
        let total: u64 = s[i] as u64 + s[i + 1] as u64 + s[i + 2] as u64;
        if total > u32::MAX as u64 {
            proof {
                lemma_sums_fail(s@, i + 1, s@.len() - 2);
            }
            return None;
        }
        out.push(total as u32);
        i += 1;
    }
    Some(out)
}

/// How often the depth grows from one line to the next.
pub open spec fn answer_1(input: Seq<char>) -> Option<int> {
    match input_of(input) {
        Some(depths) => Some(climbs(depths, depths.len() as int)),
        None => None,
    }
}

/// How often the sum of three depths in a row grows from one run to the next.
pub open spec fn answer_2(input: Seq<char>) -> Option<int> {
    match input_of(input) {
        Some(depths) => match windows(depths) {
            Some(w) => Some(climbs(w, w.len() as int)),
            None => None,
        },
        None => None,
    }
}

/// How often the depth grows, if every line writes a depth.
pub fn try_puzzle_1(input: &str) -> (r: Option<String>)
    ensures
        r is Some == answer_1(input@) is Some,
        r matches Some(t) ==> t@ == decimal(answer_1(input@)->0),
{
    match try_load_input(input) {
        Some(depths) => Some(format_u64(count_climbs(&depths) as u64)),
        None => None,
    }
}

/// How often the depth grows.
pub fn puzzle_1(input: &str) -> (r: String)
    requires
        answer_1(input@) is Some,
    ensures
        r@ == decimal(answer_1(input@)->0),
{
    try_puzzle_1(input).unwrap()
}

/// How often the sum of three depths in a row grows, if every line writes a depth and the
/// sums can be held.
pub fn try_puzzle_2(input: &str) -> (r: Option<String>)
    ensures
        r is Some == answer_2(input@) is Some,
        r matches Some(t) ==> t@ == decimal(answer_2(input@)->0),
{
    let depths = match try_load_input(input) {
        Some(d) => d,
        None => {
            return None;
        },
    };
    match sum_windows(&depths) {
        Some(w) => Some(format_u64(count_climbs(&w) as u64)),
        None => None,
    }
}

/// How often the sum of three depths in a row grows.
pub fn puzzle_2(input: &str) -> (r: String)
    requires
        answer_2(input@) is Some,
    ensures
        r@ == decimal(answer_2(input@)->0),
{
    try_puzzle_2(input).unwrap()
}

} // verus!
