//! The days that have a solver, and the way from a day to its two puzzles.

use crate::number::{decimal, format_u64};
use crate::{y2021, y2022};
use vstd::prelude::*;

verus! {

/// A day of a year's puzzles.
#[derive(Debug, PartialEq, Eq, Structural, Clone, Copy)]
pub struct Day {
    pub year: u16,
    pub day: u8,
}

impl Day {
    /// Whether the day has a solver.
    pub open spec fn known(self) -> bool {
        (self.year == 2021 && 1 <= self.day <= 4) || (self.year == 2022 && 1 <= self.day <= 17)
    }

    /// Whether `r` is what the solver of the day gives for one of its two puzzles on the
    /// input: the answer as text, where the solver gives a number its decimal numeral, or
    /// `None` where the solver finds no answer. A day without a solver and a puzzle other
    /// than the first and the second have no answer.
    pub open spec fn solves(self, puzzle: u8, input: &str, r: Option<String>) -> bool {
        match (self.year, self.day, puzzle) {
            (2021, 1, 1) => call_ensures(y2021::day_01::try_puzzle_1, (input,), r),
            (2021, 1, 2) => call_ensures(y2021::day_01::try_puzzle_2, (input,), r),
            (2021, 2, 1) => call_ensures(y2021::day_02::try_puzzle_1, (input,), r),
            (2021, 2, 2) => call_ensures(y2021::day_02::try_puzzle_2, (input,), r),
            (2021, 3, 1) => call_ensures(y2021::day_03::try_puzzle_1, (input,), r),
            (2021, 3, 2) => call_ensures(y2021::day_03::try_puzzle_2, (input,), r),
            (2021, 4, 1) => call_ensures(y2021::day_04::try_puzzle_1, (input,), r),
            (2021, 4, 2) => call_ensures(y2021::day_04::try_puzzle_2, (input,), r),
            (2022, 1, 1) => match r {
                Some(t) => exists|n: u32| #[trigger]
                    call_ensures(y2022::day_01::try_puzzle_1, (input,), Some(n)) && t@ == decimal(n as int),
                None => call_ensures(y2022::day_01::try_puzzle_1, (input,), None::<u32>),
            },
            (2022, 1, 2) => match r {
                Some(t) => exists|n: u32| #[trigger]
                    call_ensures(y2022::day_01::try_puzzle_2, (input,), Some(n)) && t@ == decimal(n as int),
                None => call_ensures(y2022::day_01::try_puzzle_2, (input,), None::<u32>),
            },
            (2022, 2, 1) => match r {
                Some(t) => exists|n: u32| #[trigger]
                    call_ensures(y2022::day_02::try_puzzle_1, (input,), Some(n)) && t@ == decimal(n as int),
                None => call_ensures(y2022::day_02::try_puzzle_1, (input,), None::<u32>),
            },
            (2022, 2, 2) => match r {
                Some(t) => exists|n: u32| #[trigger]
                    call_ensures(y2022::day_02::try_puzzle_2, (input,), Some(n)) && t@ == decimal(n as int),
                None => call_ensures(y2022::day_02::try_puzzle_2, (input,), None::<u32>),
            },
            (2022, 3, 1) => call_ensures(y2022::day_03::try_puzzle_1, (input,), r),
            (2022, 3, 2) => call_ensures(y2022::day_03::try_puzzle_2, (input,), r),
            (2022, 4, 1) => call_ensures(y2022::day_04::try_puzzle_1, (input,), r),
            (2022, 4, 2) => call_ensures(y2022::day_04::try_puzzle_2, (input,), r),
            (2022, 5, 1) => call_ensures(y2022::day_05::try_puzzle_1, (input,), r),
            (2022, 5, 2) => call_ensures(y2022::day_05::try_puzzle_2, (input,), r),
            (2022, 6, 1) => call_ensures(y2022::day_06::try_puzzle_1, (input,), r),
            (2022, 6, 2) => call_ensures(y2022::day_06::try_puzzle_2, (input,), r),
            (2022, 7, 1) => call_ensures(y2022::day_07::try_puzzle_1, (input,), r),
            (2022, 7, 2) => call_ensures(y2022::day_07::try_puzzle_2, (input,), r),
            (2022, 8, 1) => call_ensures(y2022::day_08::try_puzzle_1, (input,), r),
            (2022, 8, 2) => call_ensures(y2022::day_08::try_puzzle_2, (input,), r),
            (2022, 9, 1) => call_ensures(y2022::day_09::try_puzzle_1, (input,), r),
            (2022, 9, 2) => call_ensures(y2022::day_09::try_puzzle_2, (input,), r),
            (2022, 10, 1) => call_ensures(y2022::day_10::try_puzzle_1, (input,), r),
            (2022, 10, 2) => call_ensures(y2022::day_10::try_puzzle_2, (input,), r),
            (2022, 11, 1) => call_ensures(y2022::day_11::try_puzzle_1, (input,), r),
            (2022, 11, 2) => call_ensures(y2022::day_11::try_puzzle_2, (input,), r),
            (2022, 12, 1) => call_ensures(y2022::day_12::try_puzzle_1, (input,), r),
            (2022, 12, 2) => call_ensures(y2022::day_12::try_puzzle_2, (input,), r),
            (2022, 13, 1) => call_ensures(y2022::day_13::try_puzzle_1, (input,), r),
            (2022, 13, 2) => call_ensures(y2022::day_13::try_puzzle_2, (input,), r),
            (2022, 14, 1) => call_ensures(y2022::day_14::try_puzzle_1, (input,), r),
            (2022, 14, 2) => call_ensures(y2022::day_14::try_puzzle_2, (input,), r),
            (2022, 15, 1) => call_ensures(y2022::day_15::try_puzzle_1, (input,), r),
            (2022, 15, 2) => call_ensures(y2022::day_15::try_puzzle_2, (input,), r),
            (2022, 16, 1) => call_ensures(y2022::day_16::try_puzzle_1, (input,), r),
            (2022, 16, 2) => call_ensures(y2022::day_16::try_puzzle_2, (input,), r),
            (2022, 17, 1) => call_ensures(y2022::day_17::try_puzzle_1, (input,), r),
            (2022, 17, 2) => call_ensures(y2022::day_17::try_puzzle_2, (input,), r),
            _ => r is None,
        }
    }

    /// Solves the first puzzle of the day.
    pub fn puzzle_1(&self, input: &str) -> (r: Option<String>)
        ensures
            self.solves(1, input, r),
    {
        match (self.year, self.day) {
            (2021, 1) => y2021::day_01::try_puzzle_1(input),
            (2021, 2) => y2021::day_02::try_puzzle_1(input),
            (2021, 3) => y2021::day_03::try_puzzle_1(input),
            (2021, 4) => y2021::day_04::try_puzzle_1(input),
            (2022, 1) => match y2022::day_01::try_puzzle_1(input) {
                Some(n) => Some(format_u64(n as u64)),
                None => None,
            },
            (2022, 2) => match y2022::day_02::try_puzzle_1(input) {
                Some(n) => Some(format_u64(n as u64)),
                None => None,
            },
            (2022, 3) => y2022::day_03::try_puzzle_1(input),
            (2022, 4) => y2022::day_04::try_puzzle_1(input),
            (2022, 5) => y2022::day_05::try_puzzle_1(input),
            (2022, 6) => y2022::day_06::try_puzzle_1(input),
            (2022, 7) => y2022::day_07::try_puzzle_1(input),
            (2022, 8) => y2022::day_08::try_puzzle_1(input),
            (2022, 9) => y2022::day_09::try_puzzle_1(input),
            (2022, 10) => y2022::day_10::try_puzzle_1(input),
            (2022, 11) => y2022::day_11::try_puzzle_1(input),
            (2022, 12) => y2022::day_12::try_puzzle_1(input),
            (2022, 13) => y2022::day_13::try_puzzle_1(input),
            (2022, 14) => y2022::day_14::try_puzzle_1(input),
            (2022, 15) => y2022::day_15::try_puzzle_1(input),
            (2022, 16) => y2022::day_16::try_puzzle_1(input),
            (2022, 17) => y2022::day_17::try_puzzle_1(input),
            _ => None,
        }
    }

    /// Solves the second puzzle of the day.
    pub fn puzzle_2(&self, input: &str) -> (r: Option<String>)
        ensures
            self.solves(2, input, r),
    {
        match (self.year, self.day) {
            (2021, 1) => y2021::day_01::try_puzzle_2(input),
            (2021, 2) => y2021::day_02::try_puzzle_2(input),
            (2021, 3) => y2021::day_03::try_puzzle_2(input),
            (2021, 4) => y2021::day_04::try_puzzle_2(input),
            (2022, 1) => match y2022::day_01::try_puzzle_2(input) {
                Some(n) => Some(format_u64(n as u64)),
                None => None,
            },
            (2022, 2) => match y2022::day_02::try_puzzle_2(input) {
                Some(n) => Some(format_u64(n as u64)),
                None => None,
            },
            (2022, 3) => y2022::day_03::try_puzzle_2(input),
            (2022, 4) => y2022::day_04::try_puzzle_2(input),
            (2022, 5) => y2022::day_05::try_puzzle_2(input),
            (2022, 6) => y2022::day_06::try_puzzle_2(input),
            (2022, 7) => y2022::day_07::try_puzzle_2(input),
            (2022, 8) => y2022::day_08::try_puzzle_2(input),
            (2022, 9) => y2022::day_09::try_puzzle_2(input),
            (2022, 10) => y2022::day_10::try_puzzle_2(input),
            (2022, 11) => y2022::day_11::try_puzzle_2(input),
            (2022, 12) => y2022::day_12::try_puzzle_2(input),
            (2022, 13) => y2022::day_13::try_puzzle_2(input),
            (2022, 14) => y2022::day_14::try_puzzle_2(input),
            (2022, 15) => y2022::day_15::try_puzzle_2(input),
            (2022, 16) => y2022::day_16::try_puzzle_2(input),
            (2022, 17) => y2022::day_17::try_puzzle_2(input),
            _ => None,
        }
    }

    /// Solves one of the two puzzles of the day.
    pub fn puzzle(&self, number: u8, input: &str) -> (r: Option<String>)
        ensures
            self.solves(number, input, r),
    {
        if number == 1 {
            self.puzzle_1(input)
        } else if number == 2 {
            self.puzzle_2(input)
        } else {
            None
        }
    }
}

/// The first `count` days of a year.
pub open spec fn first_days(year: u16, count: int) -> Seq<Day> {
    Seq::new(count as nat, |i: int| Day { year, day: (i + 1) as u8 })
}

/// Lists the first `count` days of a year.
pub fn list_days(year: u16, count: u8) -> (r: Vec<Day>)
    ensures
        r@ == first_days(year, count as int),
{
    let mut out: Vec<Day> = Vec::new();
    let mut d: u8 = 0;
    while d < count
        invariant
            0 <= d <= count,
            out@ == first_days(year, d as int),
        decreases count - d,
    {
        d += 1;
        out.push(Day { year, day: d });
        assert(out@ =~= first_days(year, d as int));
    }
    out
}

/// The days of a year that have a solver; years other than 2021 and 2022 have none.
pub open spec fn days_of(year: u16) -> Option<Seq<Day>> {
    if year == 2021 {
        Some(first_days(2021, 4))
    } else if year == 2022 {
        Some(first_days(2022, 17))
    } else {
        None
    }
}

/// The days of a year that have a solver, if it is a year with solvers.
pub fn try_get_days(year: u16) -> (r: Option<Vec<Day>>)
    ensures
        r is Some == days_of(year) is Some,
        r matches Some(v) ==> Some(v@) == days_of(year),
{
    if year == 2021 {
        Some(y2021::get_days())
    } else if year == 2022 {
        Some(y2022::get_days())
    } else {
        None
    }
}

/// The days of a year that have a solver.
pub fn get_days(year: u16) -> (r: Vec<Day>)
    requires
        days_of(year) is Some,
    ensures
        Some(r@) == days_of(year),
{
    try_get_days(year).unwrap()
}

} // verus!
