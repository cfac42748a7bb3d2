use advent_of_code::y2021::day_01::{
    count_climbs, load_input, puzzle_1, puzzle_2, sum_windows, try_load_input, try_puzzle_1,
    try_puzzle_2,
};

const DEPTHS: &str = "199
200
208
210
200
207
240
269
260
263
";

#[test]
fn y2021_day_01_load_input() {
    assert_eq!(
        load_input(DEPTHS),
        vec![199, 200, 208, 210, 200, 207, 240, 269, 260, 263]
    );
    assert_eq!(try_load_input("1\n\n2\r\n+3"), Some(vec![1, 2, 3]));
    assert_eq!(try_load_input(""), Some(vec![]));
    assert_eq!(try_load_input("1\nx"), None);
    assert_eq!(try_load_input("-1"), None);
    assert_eq!(try_load_input("1 2"), None);
}

#[test]
fn y2021_day_01_puzzle_1() {
    assert_eq!(puzzle_1(DEPTHS), "7");
}

#[test]
fn y2021_day_01_puzzle_2() {
    assert_eq!(puzzle_2(DEPTHS), "5");
}

#[test]
fn y2021_day_01_climbs() {
    assert_eq!(count_climbs(&vec![]), 0);
    assert_eq!(count_climbs(&vec![5]), 0);
    assert_eq!(count_climbs(&vec![1, 2, 3]), 2);
    assert_eq!(count_climbs(&vec![3, 3, 2, 4]), 1);
}

#[test]
fn y2021_day_01_windows() {
    assert_eq!(sum_windows(&vec![1, 2]), Some(vec![]));
    assert_eq!(sum_windows(&vec![]), Some(vec![]));
    assert_eq!(sum_windows(&vec![1, 2, 3]), Some(vec![6]));
    assert_eq!(sum_windows(&vec![1, 2, 3, 4]), Some(vec![6, 9]));
    assert_eq!(sum_windows(&vec![4294967295, 0, 0, 1]), Some(vec![4294967295, 1]));
    assert_eq!(sum_windows(&vec![4294967295, 1, 0, 0]), None);
}

#[test]
fn y2021_day_01_short_and_bad_inputs() {
    assert_eq!(try_puzzle_1(""), Some(String::from("0")));
    assert_eq!(try_puzzle_2(""), Some(String::from("0")));
    assert_eq!(try_puzzle_1("1\n2\n3"), Some(String::from("2")));
    assert_eq!(try_puzzle_2("1\n2\n3"), Some(String::from("0")));
    assert_eq!(try_puzzle_2("1\n2\n3\n4"), Some(String::from("1")));
    assert_eq!(try_puzzle_1("1\nabc"), None);
    assert_eq!(try_puzzle_2("1\nabc"), None);
    assert_eq!(try_puzzle_1("4294967295\n1\n1\n1"), Some(String::from("0")));
    assert_eq!(try_puzzle_2("4294967295\n1\n1\n1"), None);
}
