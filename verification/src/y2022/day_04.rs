//! Camp cleanup: pairs of section ranges, counted by containment and by overlap.

use crate::number::{decimal, format_u64, parse_u32, u32_of};
use crate::text::{halves, rows, rows_of, split_once, views};
use vstd::prelude::*;

verus! {

/// A range of section numbers, both ends included.
#[derive(PartialEq, Eq, Structural, Debug, Clone, Copy)]
pub struct Job {
    pub start: u32,
    pub end: u32,
}

impl Job {
    /// Whether section `n` lies in the range.
    pub open spec fn has(self, n: int) -> bool {
        self.start <= n <= self.end
    }

    /// Whether the range starts at or before `other` and ends at or after it.
    pub open spec fn spans(self, other: Job) -> bool {
        self.start <= other.start && self.end >= other.end
    }

    /// Whether the range holds the first or the last section of `other`.
    pub open spec fn touches(self, other: Job) -> bool {
        self.has(other.start as int) || self.has(other.end as int)
    }

    pub fn includes(&self, other: &Self) -> (r: bool)
        ensures
            r == self.spans(*other),
    {
        self.start <= other.start && self.end >= other.end
    }

    pub fn overlaps(&self, other: &Self) -> (r: bool)
        ensures
            r == self.touches(*other),
    {
        (self.start <= other.start && self.end >= other.start) || (self.start <= other.end
            && self.end >= other.end)
    }

    /// Reads a range written as two numbers with `-` between them.
    pub fn try_from(value: &str) -> (r: Result<Job, ()>)
        ensures
            r is Ok == job_of(value@) is Some,
            r is Ok ==> r->Ok_0 == job_of(value@)->0,
    {
        match split_once(value, '-') {
            Some((first, second)) => {
                match (parse_u32(first), parse_u32(second)) {
                    (Some(start), Some(end)) => Ok(Job { start, end }),
                    _ => Err(()),
                }
            },
            None => Err(()),
        }
    }
}

/// A range that is not empty spans another one exactly when it holds all its sections.
pub proof fn lemma_spans_is_containment(a: Job, b: Job)
    requires
        b.start <= b.end,
    ensures
        a.spans(b) <==> (forall|n: int| b.has(n) ==> a.has(n)),
{
    if forall|n: int| b.has(n) ==> a.has(n) {
        assert(b.has(b.start as int));
        assert(b.has(b.end as int));
    }
}

/// Two ranges that are not empty share a section exactly when one of them touches the other.
pub proof fn lemma_touches_is_overlap(a: Job, b: Job)
    requires
        a.start <= a.end,
        b.start <= b.end,
    ensures
        (a.touches(b) || b.touches(a)) <==> (exists|n: int| a.has(n) && b.has(n)),
{
    if a.touches(b) || b.touches(a) {
        let n = if a.has(b.start as int) {
            b.start as int
        } else if a.has(b.end as int) {
            b.end as int
        } else if b.has(a.start as int) {
            a.start as int
        } else {
            a.end as int
        };
        assert(a.has(n) && b.has(n));
    }
    if exists|n: int| a.has(n) && b.has(n) {
        let n = choose|n: int| a.has(n) && b.has(n);
        assert(a.has(n) && b.has(n));
    }
}

/// The range that `s` writes: two `u32` numbers around the first `-`.
pub open spec fn job_of(s: Seq<char>) -> Option<Job> {
    match halves(s, '-') {
        Some((first, second)) => match (u32_of(first), u32_of(second)) {
            (Some(start), Some(end)) => Some(Job { start, end }),
            _ => None,
        },
        None => None,
    }
}

/// The two ranges that `s` writes around its first `,`.
pub open spec fn pair_of(s: Seq<char>) -> Option<(Job, Job)> {
    match halves(s, ',') {
        Some((first, second)) => match (job_of(first), job_of(second)) {
            (Some(a), Some(b)) => Some((a, b)),
            _ => None,
        },
        None => None,
    }
}

/// Reads a pair of ranges, if `input` writes one.
pub fn try_parse_pair(input: &str) -> (r: Option<(Job, Job)>)
    ensures
        r == pair_of(input@),
{
    match split_once(input, ',') {
        Some((first, second)) => {
            match (Job::try_from(first), Job::try_from(second)) {
                (Ok(a), Ok(b)) => Some((a, b)),
                _ => None,
            }
        },
        None => None,
    }
}

/// Reads a pair of ranges.
pub fn parse_pair(input: &str) -> (r: (Job, Job))
    requires
        pair_of(input@) is Some,
    ensures
        r == pair_of(input@)->0,
{
    try_parse_pair(input).unwrap()
}

/// Whether one range of the pair spans the other.
pub open spec fn redundant(p: (Job, Job)) -> bool {
    p.0.spans(p.1) || p.1.spans(p.0)
}

/// Whether one range of the pair touches the other.
pub open spec fn shared(p: (Job, Job)) -> bool {
    p.0.touches(p.1) || p.1.touches(p.0)
}

/// How many of the first `n` lines write a pair that is counted: a redundant one when
/// `whole`, else a shared one. `None` when one of these lines writes no pair.
pub open spec fn count(lines: Seq<Seq<char>>, n: int, whole: bool) -> Option<int>
    decreases n,
{
    if n <= 0 {
        Some(0)
    } else {
        match (count(lines, n - 1, whole), pair_of(lines[n - 1])) {
            (Some(c), Some(p)) => Some(
                if (whole && redundant(p)) || (!whole && shared(p)) {
                    c + 1
                } else {
                    c
                },
            ),
            _ => None,
        }
    }
}

/// The number of non-empty lines of `input` whose pair is counted.
pub open spec fn answer(input: Seq<char>, whole: bool) -> Option<int> {
    count(rows(input), rows(input).len() as int, whole)
}

fn tally(input: &str, whole: bool) -> (r: Option<usize>)
    ensures
        r is Some == answer(input@, whole) is Some,
        r is Some ==> r->0 == answer(input@, whole)->0,
{
    let lines = rows_of(input);
    let mut total: Option<usize> = Some(0);
    let mut i: usize = 0;
    while i < lines.len()
        invariant
            0 <= i <= lines.len(),
            views(lines@) == rows(input@),
            total is Some == count(rows(input@), i as int, whole) is Some,
            total is Some ==> total->0 == count(rows(input@), i as int, whole)->0,
            total is Some ==> total->0 <= i,
        decreases lines.len() - i,
    {
        assert(views(lines@)[i as int] == lines@[i as int]@);
        total = match (total, try_parse_pair(lines[i])) {
            (Some(c), Some((a, b))) => {
                let hit = if whole {
                    a.includes(&b) || b.includes(&a)
                } else {
                    a.overlaps(&b) || b.overlaps(&a)
                };
                if hit {
                    Some(c + 1)
                } else {
                    Some(c)
                }
            },
            _ => None,
        };
        i += 1;
    }
    total
}

/// The number of pairs in which one range spans the other, if every line writes a pair.
pub fn try_puzzle_1(input: &str) -> (r: Option<String>)
    ensures
        r is Some == answer(input@, true) is Some,
        r is Some ==> r->0@ == decimal(answer(input@, true)->0),
{
    match tally(input, true) {
        Some(n) => Some(format_u64(n as u64)),
        None => None,
    }
}

/// The number of pairs in which one range spans the other.
pub fn puzzle_1(input: &str) -> (r: String)
    requires
        answer(input@, true) is Some,
    ensures
        r@ == decimal(answer(input@, true)->0),
{
    try_puzzle_1(input).unwrap()
}

/// The number of pairs in which one range touches the other, if every line writes a pair.
pub fn try_puzzle_2(input: &str) -> (r: Option<String>)
    ensures
        r is Some == answer(input@, false) is Some,
        r is Some ==> r->0@ == decimal(answer(input@, false)->0),
{
    match tally(input, false) {
        Some(n) => Some(format_u64(n as u64)),
        None => None,
    }
}

/// The number of pairs in which one range touches the other.
pub fn puzzle_2(input: &str) -> (r: String)
    requires
        answer(input@, false) is Some,
    ensures
        r@ == decimal(answer(input@, false)->0),
{
    try_puzzle_2(input).unwrap()
}

} // verus!
