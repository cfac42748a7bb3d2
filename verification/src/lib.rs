//! Verified solutions to yearly sets of daily programming puzzles.
//!
//! Every solver reads its puzzle input as text and returns the answer as text or as a number.
//! The contracts are stated over the characters of the input.
//!
//! - [`y2021`] and [`y2022`] hold one module to each day, with the day's two puzzles.
//! - [`days`] lists the days and leads from a day to its puzzles.
//! - [`text`], [`number`] and [`scan`] cut text into pieces and read numbers from it.
//! - [`geometry`] holds points and lines on a grid.
//! - [`utils`] tells where the inputs lie and which puzzles a run is asked for.

pub mod days;
pub mod geometry;
pub mod number;
pub mod scan;
pub mod text;
pub mod utils;
pub mod y2021;
pub mod y2022;
