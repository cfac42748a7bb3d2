//! The puzzles of 2022.

use crate::days::{first_days, list_days, Day};
use vstd::prelude::*;

pub mod day_01;
pub mod day_02;
pub mod day_03;
pub mod day_04;
pub mod day_05;
pub mod day_06;
pub mod day_07;
pub mod day_08;
pub mod day_09;
pub mod day_10;
pub mod day_11;
pub mod day_11_u32;
pub mod day_12;
pub mod day_13;
pub mod day_14;
pub mod day_15;
pub mod day_16;
pub mod day_17;

verus! {

/// The days of 2022 that have a solver.
pub fn get_days() -> (r: Vec<Day>)
    ensures
        r@ == first_days(2022, 17),
{
    list_days(2022, 17)
}

} // verus!
