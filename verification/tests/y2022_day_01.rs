use advent_of_code::y2022::day_01::{
    get_total_calories_by_elf, load_input_data, puzzle_1, puzzle_2,
    try_get_total_calories_by_elf, try_load_input_data, try_puzzle_1, try_puzzle_2,
};

const CALORIES: &str = "1000
2000
3000

4000

5000
6000

7000
8000
9000

10000
";

#[test]
fn day_01_load_input_data() {
    assert_eq!(
        load_input_data(CALORIES),
        vec![
            vec![1000, 2000, 3000],
            vec![4000],
            vec![5000, 6000],
            vec![7000, 8000, 9000],
            vec![10000]
        ]
    );
}

#[test]
fn day_01_totals() {
    assert_eq!(
        get_total_calories_by_elf(load_input_data(CALORIES)),
        vec![6000, 4000, 11000, 24000, 10000]
    );
    assert_eq!(get_total_calories_by_elf(vec![vec![], vec![1, 2]]), vec![0, 3]);
    assert_eq!(get_total_calories_by_elf(vec![]), Vec::<u32>::new());
}

#[test]
fn day_01_puzzle_1() {
    assert_eq!(puzzle_1(CALORIES), 24000);
}

#[test]
fn day_01_puzzle_2() {
    assert_eq!(puzzle_2(CALORIES), 45000);
}

#[test]
fn day_01_empty_input_is_one_elf_with_nothing() {
    assert_eq!(try_load_input_data(""), Some(vec![vec![]]));
    assert_eq!(try_puzzle_1(""), Some(0));
    assert_eq!(try_puzzle_2(""), None);
}

#[test]
fn day_01_blank_lines_part_the_elves() {
    assert_eq!(
        try_load_input_data("1\n\n\n2\n\n\n\n3"),
        Some(vec![vec![1], vec![2], vec![], vec![3]])
    );
    assert_eq!(try_load_input_data("1\r\n2\n\n+3"), Some(vec![vec![1, 2], vec![3]]));
    assert_eq!(try_load_input_data("1\r\n\r\n2"), Some(vec![vec![1, 2]]));
}

#[test]
fn day_01_lines_that_are_no_numbers() {
    assert_eq!(try_load_input_data("1\nx\n\n2"), None);
    assert_eq!(try_load_input_data("1\n-2"), None);
    assert_eq!(try_load_input_data("1\n 2"), None);
    assert_eq!(try_load_input_data("4294967296"), None);
    assert_eq!(try_load_input_data("4294967295"), Some(vec![vec![4294967295]]));
    assert_eq!(try_puzzle_1("1\nx"), None);
    assert_eq!(try_puzzle_2("1\n\n2\n\nx"), None);
}

#[test]
fn day_01_sums_too_large() {
    assert_eq!(try_get_total_calories_by_elf(vec![vec![4294967295, 1]]), None);
    assert_eq!(
        try_get_total_calories_by_elf(vec![vec![4294967294, 1], vec![7]]),
        Some(vec![4294967295, 7])
    );
    assert_eq!(try_puzzle_1("4294967295\n1\n\n5"), None);
    assert_eq!(try_puzzle_2("4294967295\n\n1\n\n0"), None);
    assert_eq!(try_puzzle_2("4294967294\n\n1\n\n0"), Some(4294967295));
}

#[test]
fn day_01_three_largest() {
    assert_eq!(try_puzzle_2("1\n\n2\n\n3"), Some(6));
    assert_eq!(try_puzzle_2("5\n\n1\n\n5\n\n2\n\n5\n\n4"), Some(15));
    assert_eq!(try_puzzle_2("1\n\n9\n\n3\n\n7"), Some(19));
    assert_eq!(try_puzzle_2("1\n\n2"), None);
    assert_eq!(try_puzzle_1("1\n\n9\n\n3\n\n7"), Some(9));
}
