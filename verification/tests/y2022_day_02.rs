use advent_of_code::y2022::day_02::{
    get_hands_from_input_first_case, get_hands_from_input_second_case, get_scores,
    parse_hand_from_first_case, parse_hand_from_second_case, puzzle_1, puzzle_2, try_get_hands,
    try_puzzle_1, try_puzzle_2, Hand, Move, Outcome,
};
use std::cmp::Ordering;

#[test]
fn parse_hand_case_1() {
    let hand_str = "A Y";
    let hand = parse_hand_from_first_case(hand_str).unwrap();

    assert_eq!(hand.them_move, Move::Rock);
    assert_eq!(hand.us_move, Move::Paper);
    assert_eq!(hand.get_outcome(), Outcome::Win);
    assert_eq!(hand.get_score(), 8);
}

#[test]
fn parse_hand_case_2() {
    let hand_str = "A Y";
    let hand = parse_hand_from_second_case(hand_str).unwrap();

    assert_eq!(hand.them_move, Move::Rock);
    assert_eq!(hand.us_move, Move::Rock);
    assert_eq!(hand.get_outcome(), Outcome::Draw);
    assert_eq!(hand.get_score(), 4);
}

#[test]
fn sample_strategy_guide() {
    let input = "A Y\nB X\nC Z\n";
    assert_eq!(puzzle_1(input), 15);
    assert_eq!(puzzle_2(input), 12);
    assert_eq!(try_puzzle_1("A Y\r\nB X\r\nC Z"), Some(15));
    assert_eq!(try_puzzle_2(""), Some(0));
    let hands = get_hands_from_input_first_case(input);
    assert_eq!(get_scores(&hands), vec![8, 1, 6]);
    let hands = get_hands_from_input_second_case(input);
    assert_eq!(get_scores(&hands), vec![4, 1, 7]);
}

#[test]
fn lines_that_write_no_hand() {
    assert_eq!(try_puzzle_1("A Y\n\nB X\n"), None);
    assert_eq!(try_puzzle_1("A Y\nBX\n"), None);
    assert_eq!(try_puzzle_2("A Y\nD X\n"), None);
    assert_eq!(try_puzzle_2("A  Y\n"), None);
    assert!(try_get_hands("A Y\nB W", true).is_none());
    assert_eq!(try_get_hands("A Y\nB Z", false).unwrap().len(), 2);
    let failed = parse_hand_from_first_case("A W").unwrap_err();
    assert_eq!(failed.as_str(), "Failed to parse the us move");
    let failed = parse_hand_from_second_case("AA X").unwrap_err();
    assert_eq!(failed.as_str(), "Failed to parse the us move");
    assert!(parse_hand_from_first_case("X A").is_err());
}

#[test]
fn every_shape_is_defeated_by_another() {
    assert_eq!(Move::Rock.cmp(&Move::Scissors), Ordering::Greater);
    assert_eq!(Move::Rock.cmp(&Move::Paper), Ordering::Less);
    assert_eq!(Move::Paper.cmp(&Move::Rock), Ordering::Greater);
    assert_eq!(Move::Paper.cmp(&Move::Scissors), Ordering::Less);
    assert_eq!(Move::Scissors.cmp(&Move::Paper), Ordering::Greater);
    assert_eq!(Move::Scissors.cmp(&Move::Rock), Ordering::Less);
    assert_eq!(Move::Paper.partial_cmp(&Move::Paper), Some(Ordering::Equal));
    assert_eq!(Move::Rock.outcom_with(&Move::Paper), Outcome::Loose);
    assert_eq!(Move::Scissors.outcom_with(&Move::Paper), Outcome::Win);
    assert_eq!(
        (Move::Rock.score(), Move::Paper.score(), Move::Scissors.score()),
        (1, 2, 3)
    );
    assert_eq!(
        (Outcome::Loose.score(), Outcome::Draw.score(), Outcome::Win.score()),
        (0, 3, 6)
    );
    let hand = Hand {
        us_move: Move::Scissors,
        them_move: Move::Rock,
    };
    assert_eq!(hand.get_outcome(), Outcome::Loose);
    assert_eq!(hand.get_score(), 3);
}

#[test]
fn second_case_picks_the_shape_for_the_outcome() {
    let shapes = ["A", "B", "C"];
    let moves = [Move::Rock, Move::Paper, Move::Scissors];
    let wanted = [("X", Outcome::Loose), ("Y", Outcome::Draw), ("Z", Outcome::Win)];
    for (letter, them) in shapes.iter().zip(moves.iter()) {
        for (goal, outcome) in wanted.iter() {
            let line = format!("{} {}", letter, goal);
            let hand = parse_hand_from_second_case(&line).unwrap();
            assert_eq!(hand.them_move, *them);
            assert_eq!(hand.get_outcome(), *outcome);
        }
    }
}
