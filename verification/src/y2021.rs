//! The puzzles of 2021.

use crate::days::{first_days, list_days, Day};
use vstd::prelude::*;

pub mod day_01;
pub mod day_02;
pub mod day_03;
pub mod day_04;

verus! {

/// The days of 2021 that have a solver.
pub fn get_days() -> (r: Vec<Day>)
    ensures
        r@ == first_days(2021, 4),
{
    list_days(2021, 4)
}

} // verus!
