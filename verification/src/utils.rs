//! Where the puzzle inputs lie, and which days and puzzles a run is asked for.

use crate::number::{decimal, push_decimal};
use crate::text::push_all;
use vstd::prelude::*;

verus! {

/// Which input of a day is wanted: the small example, or the full input.
#[derive(Debug, PartialEq, Eq, Structural, Clone, Copy)]
pub enum InputKind {
    Test,
    Run,
}

/// The directory that holds the inputs of one kind.
pub open spec fn folder(kind: InputKind) -> Seq<char> {
    match kind {
        InputKind::Test => "../data/tests"@,
        InputKind::Run => "../data/inputs"@,
    }
}

/// The numeral of `n` with a nought before it where it has one digit only.
pub open spec fn padded(n: int) -> Seq<char> {
    if n < 10 {
        seq!['0'] + decimal(n)
    } else {
        decimal(n)
    }
}

/// The path of the input of a day: the directory of its kind, the year after 2000 written
/// behind `20`, and the day in two digits.
pub open spec fn path_of(kind: InputKind, year: u8, day: u8) -> Seq<char> {
    folder(kind) + "/20"@ + decimal(year as int) + "/"@ + padded(day as int) + ".txt"@
}

/// Appends `n` in at least two digits.
fn push_padded(s: &mut String, n: u8)
    ensures
        final(s)@ == old(s)@ + padded(n as int),
{
    if n < 10 {
        s.push('0');
    }
    push_decimal(s, n as u64);
    assert(s@ =~= old(s)@ + padded(n as int));
}

/// The path of the input of a day.
pub fn input_path(kind: InputKind, year: u8, day: u8) -> (r: String)
    ensures
        r@ == path_of(kind, year, day),
{
    let mut s = String::new();
    match kind {
        InputKind::Test => push_all(&mut s, "../data/tests"),
        InputKind::Run => push_all(&mut s, "../data/inputs"),
    }
    push_all(&mut s, "/20");
    push_decimal(&mut s, year as u64);
    push_all(&mut s, "/");
    push_padded(&mut s, day);
    push_all(&mut s, ".txt");
    assert(s@ =~= path_of(kind, year, day));
    s
}

/// The path of the full input of a day where all inputs lie in one directory.
pub open spec fn plain_path_of(day: u8) -> Seq<char> {
    "./data/inputs/input"@ + padded(day as int) + ".txt"@
}

/// The path of the full input of a day where all inputs lie in one directory.
pub fn plain_input_path(day: u8) -> (r: String)
    ensures
        r@ == plain_path_of(day),
{
    let mut s = String::new();
    push_all(&mut s, "./data/inputs/input");
    push_padded(&mut s, day);
    push_all(&mut s, ".txt");
    assert(s@ =~= plain_path_of(day));
    s
}

/// The days to run, as the positions from the first of them up to the last, which is left
/// out: all of the `count` days where none is asked for, else the one day asked for, counted
/// from one. `None` where the day asked for is not among them.
pub open spec fn chosen(count: int, day_number: Option<usize>) -> Option<(int, int)> {
    match day_number {
        None => Some((0, count)),
        Some(d) => if 1 <= d <= count {
            Some((d - 1, d as int))
        } else {
            None
        },
    }
}

/// Picks the days to run.
pub fn selected_days(count: usize, day_number: Option<usize>) -> (r: Option<(usize, usize)>)
    ensures
        r is Some == chosen(count as int, day_number) is Some,
        r matches Some(p) ==> chosen(count as int, day_number) == Some((p.0 as int, p.1 as int)),
{
    match day_number {
        None => Some((0, count)),
        Some(d) => if 1 <= d && d <= count {
            Some((d - 1, d))
        } else {
            None
        },
    }
}

/// Tells whether puzzle `n` of a day is to run: it is where no puzzle is asked for, or this
/// one.
pub fn runs_puzzle(puzzle_number: Option<usize>, n: usize) -> (r: bool)
    ensures
        r == (puzzle_number is None || puzzle_number == Some(n)),
{
    match puzzle_number {
        None => true,
        Some(p) => p == n,
    }
}

} // verus!
