use advent_of_code::y2022::day_06::{
    get_start_parker_pos, no_duplicate, puzzle_1, puzzle_2, try_get_start_parker_pos,
    try_puzzle_1, try_puzzle_2,
};

const SIGNAL: &str = "zcfzfwzzqfrljwzlrfnpqdbhtmscgvjw";

#[test]
fn test_detect_start() {
    if let Some((i, string)) = get_start_parker_pos(SIGNAL, 4) {
        assert_eq!(i + 1, 11);
        assert_eq!(string, "ljwzlrfnpqdbhtmscgvjw");
    } else {
        panic!()
    }
}

#[test]
fn day_06_test_puzzle_1() {
    assert_eq!(puzzle_1(SIGNAL), "11");
}

#[test]
fn day_06_test_puzzle_2() {
    assert_eq!(puzzle_2(SIGNAL), "26");
}

#[test]
fn day_06_other_signals() {
    assert_eq!(puzzle_1("mjqjpqmgbljsphdztnvjfqwrcgsmlb"), "7");
    assert_eq!(puzzle_1("bvwbjplbgvbhsrlpgdmjqwftvncz"), "5");
    assert_eq!(puzzle_1("nppdvjthqldpwncqszvftbrmjlhg\n"), "6");
    assert_eq!(puzzle_2("mjqjpqmgbljsphdztnvjfqwrcgsmlb"), "19");
    assert_eq!(puzzle_2("  bvwbjplbgvbhsrlpgdmjqwftvncz  "), "23");
}

#[test]
fn day_06_window_without_repeats() {
    assert!(no_duplicate("abcd"));
    assert!(no_duplicate(""));
    assert!(!no_duplicate("abca"));
    assert!(!no_duplicate("aa"));
    assert!(!no_duplicate("é"));
}

#[test]
fn day_06_no_marker() {
    assert_eq!(try_get_start_parker_pos("aaaa", 2), Some(None));
    assert_eq!(try_get_start_parker_pos("abc", 4), Some(None));
    assert_eq!(try_get_start_parker_pos("", 0), Some(None));
    assert_eq!(try_puzzle_1("aaaaaaa"), None);
    assert_eq!(try_puzzle_2("abcdefghijklm"), None);
}

#[test]
fn day_06_marker_at_the_start() {
    assert_eq!(try_get_start_parker_pos("abcd", 4), Some(Some((3, ""))));
    assert_eq!(try_get_start_parker_pos("abcde", 1), Some(Some((0, "bcde"))));
    assert_eq!(try_puzzle_1("abcd"), Some(String::from("4")));
}

#[test]
fn day_06_search_refused() {
    assert_eq!(try_get_start_parker_pos("abc", 0), None);
    assert_eq!(try_get_start_parker_pos("aé", 2), None);
    assert_eq!(try_get_start_parker_pos("éa", 2), None);
    assert_eq!(try_get_start_parker_pos("éab", 2), None);
    assert_eq!(try_get_start_parker_pos("abé", 2), Some(Some((1, "é"))));
}
