use advent_of_code::y2022::day_14::{
    get_range, parse_input, pour_all, pour_sand, puzzle_1, puzzle_2, sand_fall, try_parse_input,
    try_parse_paths, try_puzzle_1, try_puzzle_2, Cave,
};

const INPUT: &str = "498,4 -> 498,6 -> 496,6
503,4 -> 502,4 -> 502,9 -> 494,9";

#[test]
fn day_14_test_can_parse_input() {
    let parsed = parse_input(INPUT);
    assert_eq!(parsed.data.iter().flatten().filter(|x| **x).count(), 20);
}

#[test]
fn day_14_test_puzzle_1() {
    assert_eq!(puzzle_1(INPUT), "24");
}

#[test]
fn day_14_test_puzzle_2() {
    assert_eq!(puzzle_2(INPUT), "93");
}

#[test]
fn the_cave_reaches_two_below_the_deepest_rock() {
    let cave = parse_input(INPUT);
    assert_eq!(cave.bottom_height, 11);
    assert_eq!(cave.offset_x, 489);
    assert_eq!(cave.data.len(), 12);
    assert!(cave.data.iter().all(|row| row.len() == 23));
    assert!(cave.is_occupied(498, 4));
    assert!(cave.is_occupied(498, 5));
    assert!(cave.is_occupied(497, 6));
    assert!(cave.is_occupied(494, 9));
    assert!(cave.is_occupied(502, 9));
    assert!(!cave.is_occupied(499, 4));
    assert!(!cave.is_occupied(500, 0));
    assert!(!cave.is_occupied(503, 5));
    assert_eq!(get_range(7, 3), (3, 7));
    assert_eq!(get_range(3, 7), (3, 7));
    assert_eq!(get_range(5, 5), (5, 5));
}

#[test]
fn paths_are_read_up_to_the_first_line_that_writes_none() {
    assert_eq!(
        try_parse_paths("1,2 -> 3,4\n5,6\n\n7,8"),
        Some(vec![vec![(1, 2), (3, 4)], vec![(5, 6)]])
    );
    assert_eq!(
        try_parse_paths("1,2 -> 3,4 -> x\n5,6->7,8"),
        Some(vec![vec![(1, 2), (3, 4)]])
    );
    assert_eq!(
        try_parse_paths("1,2 -> 3,4\n5,6->7,8"),
        Some(vec![vec![(1, 2), (3, 4)], vec![(5, 6)]])
    );
    assert_eq!(try_parse_paths("65535,0 -> 65536,0"), Some(vec![vec![(65535, 0)]]));
    assert_eq!(try_parse_paths("+1,2"), None);
    assert_eq!(try_parse_paths(" 1,2"), None);
    assert_eq!(try_parse_paths("65536,2"), None);
    assert_eq!(try_parse_paths("1, 2"), None);
    assert_eq!(try_parse_paths(""), None);
}

#[test]
fn paths_that_cannot_be_drawn() {
    assert!(try_parse_input("500,499 -> 500,499").is_none());
    assert!(try_parse_input("500,498 -> 500,498").is_some());
    assert!(try_parse_input("480,4 -> 481,4").is_none());
    assert!(try_parse_input("494,4 -> 506,4").is_some());
    assert!(try_parse_input("493,4 -> 506,4").is_none());
    assert!(try_parse_input("494,4 -> 507,4").is_none());
    assert!(try_parse_input("507,2 -> 507,4").is_none());
    assert!(try_parse_input("507,4").is_some());
    assert_eq!(try_puzzle_1("507,2 -> 507,4"), None);
    assert_eq!(try_puzzle_2("nothing"), None);
}

#[test]
fn a_line_between_points_that_differ_in_both_numbers_runs_level() {
    let cave = parse_input("498,4 -> 501,6");
    assert_eq!(cave.data.iter().flatten().filter(|x| **x).count(), 4);
    assert!(cave.is_occupied(498, 4));
    assert!(cave.is_occupied(501, 4));
    assert!(!cave.is_occupied(501, 6));
    let cave = parse_input("498,4 -> 498,4 -> 498,6");
    assert_eq!(cave.data.iter().flatten().filter(|x| **x).count(), 3);
}

#[test]
fn sand_falls_down_then_left_then_right() {
    let mut cave: Cave = parse_input(INPUT);
    assert_eq!(sand_fall(&cave, (500, 0)), (500, 1));
    assert_eq!(sand_fall(&cave, (500, 8)), (500, 8));
    assert_eq!(sand_fall(&cave, (497, 5)), (497, 5));
    assert_eq!(sand_fall(&cave, (499, 5)), (499, 6));
    assert_eq!(sand_fall(&cave, (498, 3)), (497, 4));
    assert!(!pour_sand(&mut cave, false));
    assert!(cave.is_occupied(500, 8));
    assert_eq!(sand_fall(&cave, (500, 7)), (499, 8));
    assert!(!pour_sand(&mut cave, false));
    assert!(cave.is_occupied(499, 8));
    assert_eq!(sand_fall(&cave, (500, 7)), (501, 8));
    assert_eq!(pour_all(&mut cave, false), Some(22));
    assert!(pour_sand(&mut cave, false));
    let mut cave = parse_input(INPUT);
    assert_eq!(pour_all(&mut cave, true), Some(92));
    assert!(cave.is_occupied(500, 0));
    assert!(cave.is_occupied(490, 10));
    assert!(!cave.is_occupied(489, 11));
}

#[test]
fn sand_that_never_falls_out() {
    assert_eq!(try_puzzle_1("499,1 -> 501,1"), None);
    assert_eq!(try_puzzle_2("499,1 -> 501,1"), Some("1".to_string()));
    assert_eq!(try_puzzle_1("500,0 -> 500,0"), Some("0".to_string()));
    assert_eq!(try_puzzle_2("500,0 -> 500,0"), Some("4".to_string()));
    assert_eq!(try_puzzle_1(INPUT), Some("24".to_string()));
    assert_eq!(try_puzzle_2(INPUT), Some("93".to_string()));
}
