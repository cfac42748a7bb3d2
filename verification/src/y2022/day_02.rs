//! Rock, paper, scissors: the score of a strategy guide, read in two ways.

use crate::text::{chars, halves, lines, lines_of, split_once, views};
use simple_error::SimpleError;
use std::cmp::Ordering;
use vstd::prelude::*;

verus! {

/// The error that a hand gives which cannot be read.
#[verifier::external_type_specification]
#[verifier::external_body]
pub struct ExSimpleError(SimpleError);

/// A shape that a player shows.
#[derive(Debug, PartialEq, Eq, Structural, Clone, Copy)]
pub enum Move {
    Rock,
    Paper,
    Scissors,
}

/// How a round ends for us.
#[derive(Debug, PartialEq, Eq, Structural, Clone, Copy)]
pub enum Outcome {
    Loose,
    Draw,
    Win,
}

/// The two shapes of a round.
#[derive(Debug)]
pub struct Hand {
    pub us_move: Move,
    pub them_move: Move,
}

impl Move {
    /// Whether this shape defeats `other`: rock defeats scissors, scissors defeat paper, paper
    /// defeats rock.
    pub open spec fn beats(self, other: Move) -> bool {
        (self == Move::Rock && other == Move::Scissors) || (self == Move::Scissors && other
            == Move::Paper) || (self == Move::Paper && other == Move::Rock)
    }

    /// How the round ends for the player who shows this shape against `other`.
    pub open spec fn outcome(self, other: Move) -> Outcome {
        if self == other {
            Outcome::Draw
        } else if self.beats(other) {
            Outcome::Win
        } else {
            Outcome::Loose
        }
    }

    /// The points that the shape brings: 1 for rock, 2 for paper, 3 for scissors.
    pub open spec fn points(self) -> int {
        match self {
            Move::Rock => 1,
            Move::Paper => 2,
            Move::Scissors => 3,
        }
    }

    /// The shape against which `other` ends with the given outcome for us.
    pub open spec fn answering(other: Move, outcome: Outcome) -> Move {
        match outcome {
            Outcome::Draw => other,
            Outcome::Loose => match other {
                Move::Rock => Move::Scissors,
                Move::Scissors => Move::Paper,
                Move::Paper => Move::Rock,
            },
            Outcome::Win => match other {
                Move::Rock => Move::Paper,
                Move::Scissors => Move::Rock,
                Move::Paper => Move::Scissors,
            },
        }
    }

    /// Compares two shapes by who defeats whom: the greater one wins. This is no order, since
    /// each shape is defeated by another.
    pub fn cmp(&self, other: &Self) -> (r: Ordering)
        ensures
            (r == Ordering::Equal) == (*self == *other),
            (r == Ordering::Greater) == self.beats(*other),
            (r == Ordering::Less) == other.beats(*self),
    {
        match self {
            Move::Rock => match other {
                Move::Rock => Ordering::Equal,
                Move::Paper => Ordering::Less,
                Move::Scissors => Ordering::Greater,
            },
            Move::Paper => match other {
                Move::Paper => Ordering::Equal,
                Move::Scissors => Ordering::Less,
                Move::Rock => Ordering::Greater,
            },
            Move::Scissors => match other {
                Move::Scissors => Ordering::Equal,
                Move::Rock => Ordering::Less,
                Move::Paper => Ordering::Greater,
            },
        }
    }

    /// The same comparison, which never fails.
    pub fn partial_cmp(&self, other: &Self) -> (r: Option<Ordering>)
        ensures
            r is Some,
            (r == Some(Ordering::Equal)) == (*self == *other),
            (r == Some(Ordering::Greater)) == self.beats(*other),
            (r == Some(Ordering::Less)) == other.beats(*self),
    {
        Some(self.cmp(other))
    }

    /// How the round ends for the player who shows this shape.
    pub fn outcom_with(&self, other: &Move) -> (r: Outcome)
        ensures
            r == self.outcome(*other),
    {
        match self.cmp(other) {
            Ordering::Less => Outcome::Loose,
            Ordering::Equal => Outcome::Draw,
            Ordering::Greater => Outcome::Win,
        }
    }

    /// The points that the shape brings.
    pub fn score(&self) -> (r: u32)
        ensures
            r == self.points(),
    {
        match self {
            Move::Rock => 1,
            Move::Paper => 2,
            Move::Scissors => 3,
        }
    }
}

impl Outcome {
    /// The points that the outcome brings: 0 for a loss, 3 for a draw, 6 for a win.
    pub open spec fn points(self) -> int {
        match self {
            Outcome::Loose => 0,
            Outcome::Draw => 3,
            Outcome::Win => 6,
        }
    }

    /// The points that the outcome brings.
    pub fn score(&self) -> (r: u32)
        ensures
            r == self.points(),
    {
        match self {
            Outcome::Loose => 0,
            Outcome::Draw => 3,
            Outcome::Win => 6,
        }
    }
}

impl Hand {
    /// The points of the round: those of our shape and those of the outcome.
    pub open spec fn points(self) -> int {
        self.us_move.points() + self.us_move.outcome(self.them_move).points()
    }

    /// How the round ends for us.
    pub fn get_outcome(&self) -> (r: Outcome)
        ensures
            r == self.us_move.outcome(self.them_move),
    {
        self.us_move.outcom_with(&self.them_move)
    }

    /// The points of the round.
    pub fn get_score(&self) -> (r: u32)
        ensures
            r == self.points(),
            1 <= r <= 9,
    {
        self.us_move.score() + self.get_outcome().score()
    }
}

/// `SimpleError::new`: an error that holds the message. Nothing is said of the error here.
#[verifier::external_body]
fn failure(message: &str) -> SimpleError {
    SimpleError::new(message)
}

/// Whether `s` holds the character `c` and nothing else.
pub open spec fn is_letter(s: Seq<char>, c: char) -> bool {
    s.len() == 1 && s[0] == c
}

/// The shape that the other player's letter stands for.
pub open spec fn their_move(s: Seq<char>) -> Option<Move> {
    if is_letter(s, 'A') {
        Some(Move::Rock)
    } else if is_letter(s, 'B') {
        Some(Move::Paper)
    } else if is_letter(s, 'C') {
        Some(Move::Scissors)
    } else {
        None
    }
}

/// The shape that our letter stands for when it names a shape.
pub open spec fn our_move(s: Seq<char>) -> Option<Move> {
    if is_letter(s, 'X') {
        Some(Move::Rock)
    } else if is_letter(s, 'Y') {
        Some(Move::Paper)
    } else if is_letter(s, 'Z') {
        Some(Move::Scissors)
    } else {
        None
    }
}

/// The outcome that our letter stands for when it names an outcome.
pub open spec fn our_outcome(s: Seq<char>) -> Option<Outcome> {
    if is_letter(s, 'X') {
        Some(Outcome::Loose)
    } else if is_letter(s, 'Y') {
        Some(Outcome::Draw)
    } else if is_letter(s, 'Z') {
        Some(Outcome::Win)
    } else {
        None
    }
}

/// The hand that a line writes when our letter names a shape. The line is split at its first
/// blank.
pub open spec fn first_case(line: Seq<char>) -> Option<Hand> {
    match halves(line, ' ') {
        Some((them, us)) => match (our_move(us), their_move(them)) {
            (Some(us_move), Some(them_move)) => Some(Hand { us_move, them_move }),
            _ => None,
        },
        None => None,
    }
}

/// The hand that a line writes when our letter names the outcome to reach.
pub open spec fn second_case(line: Seq<char>) -> Option<Hand> {
    match halves(line, ' ') {
        Some((them, us)) => match (our_outcome(us), their_move(them)) {
            (Some(outcome), Some(them_move)) => Some(
                Hand { us_move: Move::answering(them_move, outcome), them_move },
            ),
            _ => None,
        },
        None => None,
    }
}

/// The one character of `s`, if it holds exactly one.
fn only_char(s: &str) -> (r: Option<char>)
    ensures
        r is Some == (s@.len() == 1),
        r is Some ==> s@[0] == r->0,
{
    let v = chars(s);
    if v.len() == 1 {
        Some(v[0])
    } else {
        None
    }
}

fn read_their_move(s: &str) -> (r: Option<Move>)
    ensures
        r == their_move(s@),
{
    match only_char(s) {
        Some('A') => Some(Move::Rock),
        Some('B') => Some(Move::Paper),
        Some('C') => Some(Move::Scissors),
        _ => None,
    }
}

fn read_our_move(s: &str) -> (r: Option<Move>)
    ensures
        r == our_move(s@),
{
    match only_char(s) {
        Some('X') => Some(Move::Rock),
        Some('Y') => Some(Move::Paper),
        Some('Z') => Some(Move::Scissors),
        _ => None,
    }
}

fn read_our_outcome(s: &str) -> (r: Option<Outcome>)
    ensures
        r == our_outcome(s@),
{
    match only_char(s) {
        Some('X') => Some(Outcome::Loose),
        Some('Y') => Some(Outcome::Draw),
        Some('Z') => Some(Outcome::Win),
        _ => None,
    }
}

/// Reads a hand whose second letter names our shape.
pub fn parse_hand_from_first_case(line: &str) -> (r: Result<Hand, SimpleError>)
    requires
        halves(line@, ' ') is Some,
    ensures
        r is Ok == first_case(line@) is Some,
        r is Ok ==> r->Ok_0 == first_case(line@)->0,
{
    let (them_move, us_move) = split_once(line, ' ').unwrap();
    let us_move = match read_our_move(us_move) {
        Some(m) => m,
        None => {
            return Err(failure("Failed to parse the us move"));
        },
    };
    let them_move = match read_their_move(them_move) {
        Some(m) => m,
        None => {
            return Err(failure("Failed to parse the us move"));
        },
    };
    Ok(Hand { us_move, them_move })
}

/// Reads a hand whose second letter names the outcome that we are to reach.
pub fn parse_hand_from_second_case(line: &str) -> (r: Result<Hand, SimpleError>)
    requires
        halves(line@, ' ') is Some,
    ensures
        r is Ok == second_case(line@) is Some,
        r is Ok ==> r->Ok_0 == second_case(line@)->0,
{
    let (them_move, expected_outcome) = split_once(line, ' ').unwrap();
    let expected_outcome = match read_our_outcome(expected_outcome) {
        Some(o) => o,
        None => {
            return Err(failure("Failed to parse the us move"));
        },
    };
    let them_move = match read_their_move(them_move) {
        Some(m) => m,
        None => {
            return Err(failure("Failed to parse the us move"));
        },
    };
    let us_move = match expected_outcome {
        Outcome::Draw => them_move,
        Outcome::Loose => match them_move {
            Move::Rock => Move::Scissors,
            Move::Scissors => Move::Paper,
            Move::Paper => Move::Rock,
        },
        Outcome::Win => match them_move {
            Move::Rock => Move::Paper,
            Move::Scissors => Move::Rock,
            Move::Paper => Move::Scissors,
        },
    };
    Ok(Hand { us_move, them_move })
}

/// The shape that answers gives the outcome asked for.
pub proof fn lemma_answering_reaches_outcome(other: Move, outcome: Outcome)
    ensures
        Move::answering(other, outcome).outcome(other) == outcome,
{
}

/// The hand that a line writes, in the first way of reading when `shapes`, else in the second.
pub open spec fn hand_of(line: Seq<char>, shapes: bool) -> Option<Hand> {
    if shapes {
        first_case(line)
    } else {
        second_case(line)
    }
}

/// The hands that the first `n` lines write; `None` when one of them writes none.
pub open spec fn hands(lines: Seq<Seq<char>>, n: int, shapes: bool) -> Option<Seq<Hand>>
    decreases n,
{
    if n <= 0 {
        Some(Seq::empty())
    } else {
        match (hands(lines, n - 1, shapes), hand_of(lines[n - 1], shapes)) {
            (Some(h), Some(hand)) => Some(h.push(hand)),
            _ => None,
        }
    }
}

/// The hands that the lines of `input` write.
pub open spec fn hands_of(input: Seq<char>, shapes: bool) -> Option<Seq<Hand>> {
    hands(lines_of(input), lines_of(input).len() as int, shapes)
}

/// Reads the hands, if every line writes one.
pub fn try_get_hands(input: &str, shapes: bool) -> (r: Option<Vec<Hand>>)
    ensures
        r is Some == hands_of(input@, shapes) is Some,
        r is Some ==> r->0@ == hands_of(input@, shapes)->0,
{
    let all = lines(input);
    let mut out: Option<Vec<Hand>> = Some(Vec::new());
    let mut i: usize = 0;
    while i < all.len()
        invariant
            views(all@) == lines_of(input@),
            0 <= i <= all.len(),
            out is Some == hands(lines_of(input@), i as int, shapes) is Some,
            out is Some ==> out->0@ == hands(lines_of(input@), i as int, shapes)->0,
        decreases all.len() - i,
    {
        assert(views(all@)[i as int] == all@[i as int]@);
        let line = all[i];
        let hand = match split_once(line, ' ') {
            Some(_) => {
                let read = if shapes {
                    parse_hand_from_first_case(line)
                } else {
                    parse_hand_from_second_case(line)
                };
                match read {
                    Ok(hand) => Some(hand),
                    Err(_) => None,
                }
            },
            None => None,
        };
        out = match (out, hand) {
            (Some(mut list), Some(hand)) => {
                list.push(hand);
                Some(list)
            },
            _ => None,
        };
        i += 1;
    }
    out
}

/// Reads the hands whose second letters name our shapes.
pub fn get_hands_from_input_first_case(input: &str) -> (r: Vec<Hand>)
    requires
        hands_of(input@, true) is Some,
    ensures
        r@ == hands_of(input@, true)->0,
{
    try_get_hands(input, true).unwrap()
}

/// Reads the hands whose second letters name the outcomes to reach.
pub fn get_hands_from_input_second_case(input: &str) -> (r: Vec<Hand>)
    requires
        hands_of(input@, false) is Some,
    ensures
        r@ == hands_of(input@, false)->0,
{
    try_get_hands(input, false).unwrap()
}

/// The points of each hand.
pub fn get_scores(hands: &Vec<Hand>) -> (r: Vec<u32>)
    ensures
        r.len() == hands.len(),
        forall|i: int| 0 <= i < hands.len() ==> #[trigger] r[i] == hands[i].points(),
{
    let mut out: Vec<u32> = Vec::new();
    let mut i: usize = 0;
    while i < hands.len()
        invariant
            0 <= i <= hands.len(),
            out.len() == i,
            forall|k: int| 0 <= k < i ==> #[trigger] out[k] == hands[k].points(),
        decreases hands.len() - i,
    {
        out.push(hands[i].get_score());
        i += 1;
    }
    out
}

/// The points of the first `n` hands together.
pub open spec fn total(hands: Seq<Hand>, n: int) -> int
    decreases n,
{
    if n <= 0 {
        0
    } else {
        total(hands, n - 1) + hands[n - 1].points()
    }
}

/// The total of the hands that `input` writes; `None` when a line writes no hand or the total
/// is more than a `u32` holds.
pub open spec fn answer(input: Seq<char>, shapes: bool) -> Option<u32> {
    match hands_of(input, shapes) {
        Some(h) if total(h, h.len() as int) <= u32::MAX => Some(total(h, h.len() as int) as u32),
        _ => None,
    }
}

/// The points of the hands grow with their number.
pub proof fn lemma_total_grows(hands: Seq<Hand>, n: int, m: int)
    requires
        0 <= n <= m <= hands.len(),
    ensures
        0 <= total(hands, n) <= total(hands, m),
    decreases m,
{
    if n < m {
        lemma_total_grows(hands, n, m - 1);
    } else if n > 0 {
        lemma_total_grows(hands, n - 1, n - 1);
    }
}

fn sum_scores(input: &str, shapes: bool) -> (r: Option<u32>)
    ensures
        r == answer(input@, shapes),
{
    let hands = match try_get_hands(input, shapes) {
        Some(hands) => hands,
        None => {
            return None;
        },
    };
    let scores = get_scores(&hands);
    let mut sum: u32 = 0;
    let mut i: usize = 0;
    while i < scores.len()
        invariant
            scores.len() == hands.len(),
            forall|k: int| 0 <= k < hands.len() ==> #[trigger] scores[k] == hands[k].points(),
            hands@ == hands_of(input@, shapes)->0,
            0 <= i <= scores.len(),
            sum == total(hands@, i as int),
        decreases scores.len() - i,
    {
        assert(1 <= hands[i as int].points() <= 9);
        match sum.checked_add(scores[i]) {
            Some(s) => {
                sum = s;
            },
            None => {
                proof {
                    lemma_total_grows(hands@, i + 1, hands.len() as int);
                }
                return None;
            },
        }
        i += 1;
    }
    Some(sum)
}

/// Our total when the second letters name our shapes, if every line writes a hand.
pub fn try_puzzle_1(input: &str) -> (r: Option<u32>)
    ensures
        r == answer(input@, true),
{
    sum_scores(input, true)
}

/// Our total when the second letters name our shapes.
pub fn puzzle_1(input: &str) -> (r: u32)
    requires
        answer(input@, true) is Some,
    ensures
        r == answer(input@, true)->0,
{
    sum_scores(input, true).unwrap()
}

/// Our total when the second letters name the outcomes to reach, if every line writes a hand.
pub fn try_puzzle_2(input: &str) -> (r: Option<u32>)
    ensures
        r == answer(input@, false),
{
    sum_scores(input, false)
}

/// Our total when the second letters name the outcomes to reach.
pub fn puzzle_2(input: &str) -> (r: u32)
    requires
        answer(input@, false) is Some,
    ensures
        r == answer(input@, false)->0,
{
    sum_scores(input, false).unwrap()
}

} // verus!
