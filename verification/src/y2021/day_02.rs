//! Dive: a course of movements, followed in two ways.

use crate::number::{decimal, format_u64, parse_u32, u32_of};
use crate::text::{filled, filled_lines, halves, same, split_once, views};
use vstd::prelude::*;

verus! {

/// One movement of the course.
#[derive(PartialEq, Eq, Structural, Debug, Clone, Copy)]
pub enum Movement {
    Forward(u32),
    Down(u32),
    Up(u32),
}

/// Where the boat is and how it points.
#[derive(PartialEq, Eq, Structural, Debug, Clone, Copy)]
pub struct Coord {
    pub distance: u32,
    pub depth: u32,
    pub aim: u32,
}

/// Why a line writes no movement.
#[derive(PartialEq, Eq, Structural, Debug, Clone, Copy)]
pub enum LineError {
    /// The line holds no blank.
    CannotSplit,
    /// What follows the first blank is no number.
    BadDistance,
    /// What stands before the first blank is no direction.
    UnknownDirection,
}

/// The movement that a line writes: a direction, one blank and a number.
pub open spec fn line_of(line: Seq<char>) -> Result<Movement, LineError> {
    match halves(line, ' ') {
        None => Err(LineError::CannotSplit),
        Some(p) => match u32_of(p.1) {
            None => Err(LineError::BadDistance),
            Some(d) => if p.0 == "forward"@ {
                Ok(Movement::Forward(d))
            } else if p.0 == "down"@ {
                Ok(Movement::Down(d))
            } else if p.0 == "up"@ {
                Ok(Movement::Up(d))
            } else {
                Err(LineError::UnknownDirection)
            },
        },
    }
}

/// Reads the movement that a line writes.
pub fn parse_line(line: &str) -> (r: Result<Movement, LineError>)
    ensures
        r == line_of(line@),
{
    let parts = match split_once(line, ' ') {
        Some(p) => p,
        None => {
            return Err(LineError::CannotSplit);
        },
    };
    let distance = match parse_u32(parts.1) {
        Some(d) => d,
        None => {
            return Err(LineError::BadDistance);
        },
    };
    if same(parts.0, "forward") {
        Ok(Movement::Forward(distance))
    } else if same(parts.0, "down") {
        Ok(Movement::Down(distance))
    } else if same(parts.0, "up") {
        Ok(Movement::Up(distance))
    } else {
        Err(LineError::UnknownDirection)
    }
}

/// The movements that the first `n` rows write; `None` where one of them writes none.
pub open spec fn moves(rows: Seq<Seq<char>>, n: int) -> Option<Seq<Movement>>
    decreases n,
{
    if n <= 0 {
        Some(Seq::empty())
    } else {
        match (moves(rows, n - 1), line_of(rows[n - 1])) {
            (Some(read), Ok(m)) => Some(read.push(m)),
            _ => None,
        }
    }
}

/// Once a row writes no movement, no longer list of rows has its movements.
pub proof fn lemma_moves_fail(rows: Seq<Seq<char>>, n: int, m: int)
    requires
        n <= m,
        moves(rows, n) is None,
    ensures
        moves(rows, m) is None,
    decreases m - n,
{
    if n < m {
        lemma_moves_fail(rows, n, m - 1);
    }
}

/// The course that the input writes, one movement to each line that is not empty.
pub open spec fn input_of(input: Seq<char>) -> Option<Seq<Movement>> {
    moves(filled(input), filled(input).len() as int)
}

/// Reads the course; `None` where a line writes no movement.
pub fn try_load_input(input: &str) -> (r: Option<Vec<Movement>>)
    ensures
        r is Some == input_of(input@) is Some,
        r matches Some(v) ==> Some(v@) == input_of(input@),
{
    let rows = filled_lines(input);
    let mut out: Vec<Movement> = Vec::new();
    let mut i: usize = 0;
    while i < rows.len()
        invariant
            views(rows@) == filled(input@),
            0 <= i <= rows.len(),
            Some(out@) == moves(filled(input@), i as int),
        decreases rows.len() - i,
    {
        assert(views(rows@)[i as int] == rows@[i as int]@);
        match parse_line(rows[i]) {
            Ok(m) => {
                out.push(m);
            },
            Err(_) => {
                proof {
                    lemma_moves_fail(filled(input@), i + 1, filled(input@).len() as int);
                }
                return None;
            },
        }
        i += 1;
    }
    Some(out)
}

/// Reads the course.
pub fn load_input(input: &str) -> (r: Vec<Movement>)
    requires
        input_of(input@) is Some,
    ensures
        Some(r@) == input_of(input@),
{
    try_load_input(input).unwrap()
}

/// Where one movement leads when up and down change the depth; `None` where a number would
/// leave the range of `u32`.
pub open spec fn plain_step(c: Coord, m: Movement) -> Option<Coord> {
    match m {
        Movement::Forward(d) => if c.distance + d <= u32::MAX {
            Some(Coord { distance: (c.distance + d) as u32, depth: c.depth, aim: c.aim })
        } else {
            None
        },
        Movement::Down(d) => if c.depth + d <= u32::MAX {
            Some(Coord { distance: c.distance, depth: (c.depth + d) as u32, aim: c.aim })
        } else {
            None
        },
        Movement::Up(d) => if c.depth >= d {
            Some(Coord { distance: c.distance, depth: (c.depth - d) as u32, aim: c.aim })
        } else {
            None
        },
    }
}

/// Where one movement leads when up and down change the aim, and going forward changes the
/// depth by the aim times the way made; `None` where a number would leave the range of
/// `u32`.
pub open spec fn aimed_step(c: Coord, m: Movement) -> Option<Coord> {
    match m {
        Movement::Forward(d) => if c.distance + d <= u32::MAX && d * c.aim <= u32::MAX && c.depth
            + d * c.aim <= u32::MAX {
            Some(
                Coord {
                    distance: (c.distance + d) as u32,
                    depth: (c.depth + d * c.aim) as u32,
                    aim: c.aim,
                },
            )
        } else {
            None
        },
        Movement::Down(d) => if c.aim + d <= u32::MAX {
            Some(Coord { distance: c.distance, depth: c.depth, aim: (c.aim + d) as u32 })
        } else {
            None
        },
        Movement::Up(d) => if c.aim >= d {
            Some(Coord { distance: c.distance, depth: c.depth, aim: (c.aim - d) as u32 })
        } else {
            None
        },
    }
}

/// Where one movement leads, in the one way or the other.
pub open spec fn step(c: Coord, m: Movement, aimed: bool) -> Option<Coord> {
    if aimed {
        aimed_step(c, m)
    } else {
        plain_step(c, m)
    }
}

/// Where the first `n` movements lead from the start, at which every number is nought.
pub open spec fn course(ms: Seq<Movement>, n: int, aimed: bool) -> Option<Coord>
    decreases n,
{
    if n <= 0 {
        Some(Coord { distance: 0, depth: 0, aim: 0 })
    } else {
        match course(ms, n - 1, aimed) {
            Some(c) => step(c, ms[n - 1], aimed),
            None => None,
        }
    }
}

/// Once a number has left its range, the course leads nowhere.
pub proof fn lemma_course_fail(ms: Seq<Movement>, n: int, m: int, aimed: bool)
    requires
        n <= m,
        course(ms, n, aimed) is None,
    ensures
        course(ms, m, aimed) is None,
    decreases m - n,
{
    if n < m {
        lemma_course_fail(ms, n, m - 1, aimed);
    }
}

/// Makes one movement.
pub fn make_step(c: Coord, m: Movement, aimed: bool) -> (r: Option<Coord>)
    ensures
        r == step(c, m, aimed),
{
    match m {
        Movement::Forward(d) => {
            if d > u32::MAX - c.distance {
                return None;
            }
            if !aimed {
                return Some(Coord { distance: c.distance + d, depth: c.depth, aim: c.aim });
            }
            assert(d * c.aim <= 0xffff_ffff * 0xffff_ffff) by (nonlinear_arith)
                requires
                    0 <= d <= 0xffff_ffff,
                    0 <= c.aim <= 0xffff_ffff,
            ;
            let sunk: u64 = (d as u64) * (c.aim as u64);
            assert(sunk == d * c.aim) by (nonlinear_arith)
                requires
                    sunk == (d as u64) * (c.aim as u64),
                    d <= u32::MAX,
                    c.aim <= u32::MAX,
            ;
            if sunk > (u32::MAX - c.depth) as u64 {
                return None;
            }
            Some(Coord { distance: c.distance + d, depth: c.depth + sunk as u32, aim: c.aim })
        },
        Movement::Down(d) => {
            if aimed {
                if d > u32::MAX - c.aim {
                    None
                } else {
                    Some(Coord { distance: c.distance, depth: c.depth, aim: c.aim + d })
                }
            } else {
                if d > u32::MAX - c.depth {
                    None
                } else {
                    Some(Coord { distance: c.distance, depth: c.depth + d, aim: c.aim })
                }
            }
        },
        Movement::Up(d) => {
            if aimed {
                if d > c.aim {
                    None
                } else {
                    Some(Coord { distance: c.distance, depth: c.depth, aim: c.aim - d })
                }
            } else {
                if d > c.depth {
                    None
                } else {
                    Some(Coord { distance: c.distance, depth: c.depth - d, aim: c.aim })
                }
            }
        },
    }
}

/// Follows the whole course from the start.
pub fn follow(ms: &Vec<Movement>, aimed: bool) -> (r: Option<Coord>)
    ensures
        r == course(ms@, ms@.len() as int, aimed),
{
    let mut c = Coord { distance: 0, depth: 0, aim: 0 };
    let mut i: usize = 0;
    while i < ms.len()
        invariant
            0 <= i <= ms.len(),
            Some(c) == course(ms@, i as int, aimed),
        decreases ms.len() - i,
    {
        match make_step(c, ms[i], aimed) {
            Some(next) => {
                c = next;
            },
            None => {
                proof {
                    lemma_course_fail(ms@, i + 1, ms@.len() as int, aimed);
                }
                return None;
            },
        }
        i += 1;
    }
    Some(c)
}

/// The way made times the depth reached at the end of the course; `None` where the input
/// writes no course or a number would leave the range of `u32`.
pub open spec fn answer(input: Seq<char>, aimed: bool) -> Option<int> {
    match input_of(input) {
        Some(ms) => match course(ms, ms.len() as int, aimed) {
            Some(c) => if c.distance * c.depth <= u32::MAX {
                Some(c.distance * c.depth)
            } else {
                None
            },
            None => None,
        },
        None => None,
    }
}

/// Follows the course that the input writes and multiplies the way made by the depth.
fn solve(input: &str, aimed: bool) -> (r: Option<String>)
    ensures
        r is Some == answer(input@, aimed) is Some,
        r matches Some(t) ==> t@ == decimal(answer(input@, aimed)->0),
{
    let ms = match try_load_input(input) {
        Some(ms) => ms,
        None => {
            return None;
        },
    };
    let c = match follow(&ms, aimed) {
        Some(c) => c,
        None => {
            return None;
        },
    };
    assert(c.distance * c.depth <= 0xffff_ffff * 0xffff_ffff) by (nonlinear_arith)
        requires
            0 <= c.distance <= 0xffff_ffff,
            0 <= c.depth <= 0xffff_ffff,
    ;
    let product: u64 = (c.distance as u64) * (c.depth as u64);
    assert(product == c.distance * c.depth) by (nonlinear_arith)
        requires
            product == (c.distance as u64) * (c.depth as u64),
            c.distance <= u32::MAX,
            c.depth <= u32::MAX,
    ;
    if product > u32::MAX as u64 {
        None
    } else {
        Some(format_u64(product))
    }
}

/// The way made times the depth when up and down change the depth, if the course can be
/// read and followed.
pub fn try_puzzle_1(input: &str) -> (r: Option<String>)
    ensures
        r is Some == answer(input@, false) is Some,
        r matches Some(t) ==> t@ == decimal(answer(input@, false)->0),
{
    solve(input, false)
}

/// The way made times the depth when up and down change the depth.
pub fn puzzle_1(input: &str) -> (r: String)
    requires
        answer(input@, false) is Some,
    ensures
        r@ == decimal(answer(input@, false)->0),
{
    try_puzzle_1(input).unwrap()
}

/// The way made times the depth when up and down change the aim, if the course can be read
/// and followed.
pub fn try_puzzle_2(input: &str) -> (r: Option<String>)
    ensures
        r is Some == answer(input@, true) is Some,
        r matches Some(t) ==> t@ == decimal(answer(input@, true)->0),
{
    solve(input, true)
}

/// The way made times the depth when up and down change the aim.
pub fn puzzle_2(input: &str) -> (r: String)
    requires
        answer(input@, true) is Some,
    ensures
        r@ == decimal(answer(input@, true)->0),
{
    try_puzzle_2(input).unwrap()
}

} // verus!
