use advent_of_code::y2021::day_03::{
    bit_of, filter_on_least_common_nth_bit, filter_on_most_common_nth_bit,
    get_least_common_nth_bit, get_most_common_nth_bit, parse_input, puzzle_1, puzzle_2,
    try_filter_on_least_common_nth_bit, try_filter_on_most_common_nth_bit,
    try_get_most_common_nth_bit, try_parse_input, try_puzzle_1, try_puzzle_2,
};

const REPORT: &str = "00100
11110
10110
10111
10101
01111
00111
11100
10000
11001
00010
01010
";

#[test]
fn y2021_day_03_test_puzzle_1() {
    let result = puzzle_1(REPORT);

    assert_eq!(result, "198");
}

#[test]
fn y2021_day_03_test_puzzle_2() {
    let result = puzzle_2(REPORT);

    assert_eq!(result, "230");
}

#[test]
fn y2021_day_03_parse_input() {
    assert_eq!(
        parse_input(REPORT),
        (5, vec![4, 30, 22, 23, 21, 15, 7, 28, 16, 25, 2, 10])
    );
    assert_eq!(try_parse_input("+1\n\n11"), Some((2, vec![1, 3])));
    assert_eq!(try_parse_input(""), None);
    assert_eq!(try_parse_input("\n\n"), None);
    assert_eq!(try_parse_input("2"), None);
    assert_eq!(try_parse_input("01\n0 1"), None);
    assert_eq!(try_parse_input("1111111111111111"), Some((16, vec![65535])));
    assert_eq!(try_parse_input("10000000000000000"), None);
    assert_eq!(try_parse_input("00000000000000001"), Some((17, vec![1])));
}

#[test]
fn y2021_day_03_bits() {
    assert_eq!(bit_of(5, 0), 1);
    assert_eq!(bit_of(5, 1), 0);
    assert_eq!(bit_of(5, 2), 1);
    assert_eq!(bit_of(32768, 15), 1);
    assert_eq!(bit_of(32767, 15), 0);
}

#[test]
fn y2021_day_03_common_bits() {
    let bits = vec![4, 30, 22, 23, 21, 15, 7, 28, 16, 25, 2, 10];
    assert_eq!(get_most_common_nth_bit(&bits, 4), 1);
    assert_eq!(get_most_common_nth_bit(&bits, 3), 0);
    assert_eq!(get_least_common_nth_bit(&bits, 4), 0);
    assert_eq!(get_least_common_nth_bit(&bits, 3), 1);
    assert_eq!(get_most_common_nth_bit(&vec![1, 0], 0), 1);
    assert_eq!(get_most_common_nth_bit(&vec![0], 0), 1);
    assert_eq!(get_most_common_nth_bit(&vec![0, 0], 0), 0);
    assert_eq!(get_most_common_nth_bit(&vec![], 3), 1);
    assert_eq!(get_most_common_nth_bit(&vec![1, 1, 1], 0), 1);
    assert_eq!(get_most_common_nth_bit(&vec![1, 0, 0], 0), 0);
    assert_eq!(try_get_most_common_nth_bit(&vec![1], 16), None);
    assert_eq!(try_get_most_common_nth_bit(&vec![], 16), Some(1));
}

#[test]
fn y2021_day_03_filters() {
    let bits = vec![4, 30, 22, 23, 21, 15, 7, 28, 16, 25, 2, 10];
    assert_eq!(
        filter_on_most_common_nth_bit(&bits, 4),
        vec![30, 22, 23, 21, 28, 16, 25]
    );
    assert_eq!(
        filter_on_least_common_nth_bit(&bits, 4),
        vec![4, 15, 7, 2, 10]
    );
    assert_eq!(filter_on_most_common_nth_bit(&vec![5], 1), vec![5]);
    assert_eq!(filter_on_least_common_nth_bit(&vec![5], 0), vec![5]);
    assert_eq!(try_filter_on_most_common_nth_bit(&vec![5], 20), Some(vec![5]));
    assert_eq!(try_filter_on_most_common_nth_bit(&vec![5, 6], 20), None);
    assert_eq!(try_filter_on_least_common_nth_bit(&vec![], 20), Some(vec![]));
    assert_eq!(filter_on_least_common_nth_bit(&vec![0, 0], 1), Vec::<u16>::new());
    assert_eq!(filter_on_most_common_nth_bit(&vec![0, 0], 1), vec![0, 0]);
}

#[test]
fn y2021_day_03_small_reports() {
    assert_eq!(try_puzzle_1("1\n"), Some(String::from("0")));
    assert_eq!(try_puzzle_1("10\n11\n"), Some(String::from("0")));
    assert_eq!(try_puzzle_1("10\n01\n10"), Some(String::from("2")));
    assert_eq!(try_puzzle_2("10\n01\n"), Some(String::from("2")));
    assert_eq!(try_puzzle_2("00\n00"), None);
    assert_eq!(try_puzzle_1(""), None);
    assert_eq!(try_puzzle_2("12"), None);
}

#[test]
fn y2021_day_03_lines_longer_than_sixteen_bits() {
    assert_eq!(try_puzzle_1("00000000000000001"), None);
    assert_eq!(try_puzzle_2("00000000000000001"), Some(String::from("1")));
    assert_eq!(try_puzzle_2("00000000000000001\n00000000000000010"), None);
    assert_eq!(
        try_puzzle_1("1111111111111111"),
        Some(String::from("0"))
    );
}
