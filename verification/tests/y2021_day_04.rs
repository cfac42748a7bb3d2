use advent_of_code::y2021::day_04::{
    first_winner, get_grid_score, is_winning, last_winner, parse_grid, parse_input,
    parse_numbers, puzzle_1, puzzle_2, replace_number, try_parse_grid, try_parse_input,
    try_parse_numbers, try_puzzle_1, try_puzzle_2, Grid,
};

const INPUT: &str = "7,4,9,5,11,17,23,2,0,14,21,24,10,16,13,6,15,25,12,22,18,20,8,19,3,26,1

22 13 17 11  0
 8  2 23  4 24
21  9 14 16  7
 6 10  3 18  5
 1 12 20 15 19

 3 15  0  2 22
 9 18 13 17  5
19  8  7 25 23
20 11 10 24  4
14 21 16 12  6

14 21 17 24  4
10 16 15  9 19
18  8 23 26 20
22 11 13  6  5
 2  0 12  3  7";

const ROW_OF_NOUGHTS: &str = "7

0 0 0 0 0
1 2 3 4 5
6 7 8 9 10
11 12 13 14 15
16 17 18 19 20";

#[test]
fn test_puzzle_1() {
    assert_eq!(puzzle_1(INPUT), "4512");
}

#[test]
fn test_puzzle_2() {
    assert_eq!(puzzle_2(INPUT), "1924");
}

#[test]
fn y2021_day_04_parse_numbers() {
    assert_eq!(parse_numbers("7,4,9"), vec![7, 4, 9]);
    assert_eq!(parse_numbers(",7,,4,"), vec![7, 4]);
    assert_eq!(parse_numbers(""), Vec::<u8>::new());
    assert_eq!(try_parse_numbers("7, 4"), None);
    assert_eq!(try_parse_numbers("256"), None);
    assert_eq!(try_parse_numbers("255,+0"), Some(vec![255, 0]));
    assert_eq!(try_parse_numbers("1\n2"), None);
}

#[test]
fn y2021_day_04_parse_grid() {
    let grid: Grid = [
        [22, 13, 17, 11, 0],
        [8, 2, 23, 4, 24],
        [21, 9, 14, 16, 7],
        [6, 10, 3, 18, 5],
        [1, 12, 20, 15, 19],
    ];
    assert_eq!(
        parse_grid("22 13 17 11  0\n 8  2 23  4 24\n21  9 14 16  7\n\n 6 10  3 18  5\n 1 12 20 15 19\n"),
        grid
    );
    assert_eq!(try_parse_grid("1 2 3 4 5\n1 2 3 4 5\n1 2 3 4 5\n1 2 3 4 5"), None);
    assert_eq!(
        try_parse_grid("1 2 3 4 5\n1 2 3 4 5\n1 2 3 4 5\n1 2 3 4 5\n1 2 3 4 5\n1 2 3 4 5"),
        None
    );
    assert_eq!(
        try_parse_grid("1 2 3 4 5\n1 2 3 4\n1 2 3 4 5\n1 2 3 4 5\n1 2 3 4 5"),
        None
    );
    assert_eq!(
        try_parse_grid("1 2 3 4 5\n1 2 3 4 5 6\n1 2 3 4 5\n1 2 3 4 5\n1 2 3 4 5"),
        None
    );
    assert_eq!(
        try_parse_grid("1 2 3 4 5\n1 2 3 4 x\n1 2 3 4 5\n1 2 3 4 5\n1 2 3 4 5"),
        None
    );
    assert_eq!(try_parse_grid(""), None);
}

#[test]
fn y2021_day_04_parse_input() {
    let (numbers, grids) = parse_input(INPUT);
    assert_eq!(numbers.len(), 27);
    assert_eq!(numbers[0], 7);
    assert_eq!(numbers[26], 1);
    assert_eq!(grids.len(), 3);
    assert_eq!(grids[2][4], [2, 0, 12, 3, 7]);
    assert_eq!(grids[1][0], [3, 15, 0, 2, 22]);
    assert_eq!(try_parse_input(""), Some((vec![], vec![])));
    assert_eq!(try_parse_input("1,2\n\n\n\n"), Some((vec![1, 2], vec![])));
    assert_eq!(try_parse_input("1,2\n\n1 2 3"), None);
    assert_eq!(try_parse_input("1;2"), None);
}

#[test]
fn y2021_day_04_marking_and_winning() {
    let mut grid: Grid = [
        [1, 2, 3, 4, 5],
        [6, 7, 8, 9, 10],
        [11, 12, 13, 14, 15],
        [16, 17, 18, 19, 20],
        [21, 22, 23, 24, 3],
    ];
    assert!(!is_winning(&grid));
    assert_eq!(get_grid_score(&grid, 2), 606);
    replace_number(&mut grid, 3);
    assert_eq!(grid[0], [1, 2, 0, 4, 5]);
    assert_eq!(grid[4], [21, 22, 23, 24, 0]);
    assert_eq!(grid[1], [6, 7, 8, 9, 10]);
    assert_eq!(get_grid_score(&grid, 2), 594);
    replace_number(&mut grid, 99);
    assert_eq!(get_grid_score(&grid, 1), 297);
    for n in [8, 13, 18] {
        replace_number(&mut grid, n);
        assert!(!is_winning(&grid));
    }
    replace_number(&mut grid, 23);
    assert!(is_winning(&grid));
    assert_eq!(get_grid_score(&grid, 0), 0);
}

#[test]
fn y2021_day_04_winning_row() {
    let mut grid: Grid = [
        [1, 2, 3, 4, 5],
        [6, 7, 8, 9, 10],
        [11, 12, 13, 14, 15],
        [16, 17, 18, 19, 20],
        [21, 22, 23, 24, 25],
    ];
    for n in [16, 17, 18, 19] {
        replace_number(&mut grid, n);
        assert!(!is_winning(&grid));
    }
    replace_number(&mut grid, 20);
    assert!(is_winning(&grid));
}

#[test]
fn y2021_day_04_winners() {
    let (numbers, grids) = parse_input(INPUT);
    let first = first_winner(&numbers, grids.clone()).unwrap();
    assert_eq!(first.0, 24);
    assert_eq!(first.1[0], [0, 0, 0, 0, 0]);
    assert_eq!(first.1[1], [10, 16, 15, 0, 19]);
    let last = last_winner(&numbers, grids).unwrap();
    assert_eq!(last.0, 13);
    assert_eq!(last.1[0], [3, 15, 0, 0, 22]);
    assert_eq!(first_winner(&vec![1, 2], vec![]), None);
    assert_eq!(last_winner(&vec![], vec![[[1; 5]; 5]]), None);
}

#[test]
fn y2021_day_04_board_that_has_won_from_the_start() {
    assert_eq!(try_puzzle_1(ROW_OF_NOUGHTS), Some(String::from("1421")));
    assert_eq!(try_puzzle_2(ROW_OF_NOUGHTS), None);
}

#[test]
fn y2021_day_04_nobody_wins() {
    assert_eq!(
        try_puzzle_1("1,2,3\n\n1 2 3 4 5\n6 7 8 9 10\n11 12 13 14 15\n16 17 18 19 20\n21 22 23 24 25"),
        None
    );
    assert_eq!(
        try_puzzle_1("1,2,3\n\n1 2 3 4 5\n1 2 3 4 5\n1 2 3 4 5\n1 2 3 4 5\n1 2 3 4 5"),
        Some(String::from("70"))
    );
    assert_eq!(try_puzzle_2("1,2,3"), None);
    assert_eq!(try_puzzle_1("x"), None);
    assert_eq!(
        try_puzzle_2("1,2,3,4,5,6\n\n1 2 3 4 5\n1 2 3 4 5\n1 2 3 4 5\n1 2 3 4 5\n6 6 6 6 6"),
        Some(String::from("150"))
    );
    assert_eq!(
        try_puzzle_1("1,2,3,4,5,6\n\n1 2 3 4 5\n1 2 3 4 5\n1 2 3 4 5\n1 2 3 4 5\n6 6 6 6 6"),
        Some(String::from("150"))
    );
}
