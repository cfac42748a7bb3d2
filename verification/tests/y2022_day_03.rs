use advent_of_code::y2022::day_03::{
    get_group_letters, get_group_shared_letter, get_priorities, get_shared_letter,
    get_shared_letters, puzzle_1, puzzle_2, try_get_group_letters, try_get_priorities,
    try_get_shared_letter, try_get_shared_letters, try_puzzle_1, try_puzzle_2,
};

const RUCKSACKS: &str = "vJrwpWtwJgWrhcsFMMfFFhFp
jqHRNqRjqzjGDLGLrsFMfFZSrLrFZsSL
PmmdzqPrVvPwwTWBwg
wMqvLMZHhHMvwLHjbvcjnnSBnvTQFn
ttgJtRGJQctTZtZT
CrZsJsPPZsGzwwsLwLmpwMDw
";

#[test]
fn test_priorities() {
    assert_eq!(get_priorities('p'), 16);
    assert_eq!(get_priorities('L'), 38);
}

#[test]
fn test_get_shared_letter() {
    assert_eq!(get_shared_letter("vJrwpWtwJgWr", "hcsFMMfFFhFp"), 'p');
}

#[test]
fn test_get_shared_letters() {
    assert_eq!(
        get_shared_letters(RUCKSACKS),
        vec!['p', 'L', 'P', 'v', 't', 's']
    );
}

#[test]
fn day_03_test_puzzle_1() {
    let result = puzzle_1(RUCKSACKS);

    assert_eq!(result, "157");
}

#[test]
fn day_03_test_puzzle_2() {
    let result = puzzle_2(RUCKSACKS);

    assert_eq!(result, "70");
}

#[test]
fn day_03_every_priority() {
    assert_eq!(try_get_priorities('a'), Some(1));
    assert_eq!(try_get_priorities('z'), Some(26));
    assert_eq!(try_get_priorities('A'), Some(27));
    assert_eq!(try_get_priorities('Z'), Some(52));
    assert_eq!(try_get_priorities('_'), Some(0));
    assert_eq!(try_get_priorities('1'), None);
    assert_eq!(try_get_priorities(' '), None);
    assert_eq!(try_get_priorities('é'), None);
}

#[test]
fn day_03_nothing_shared() {
    assert_eq!(try_get_shared_letter("abc", "def"), None);
    assert_eq!(try_get_shared_letter("", "def"), None);
    assert_eq!(try_get_shared_letter("abc", "xcx"), Some('c'));
    assert_eq!(try_get_shared_letters("abcd\nabab\n"), None);
    assert_eq!(try_puzzle_1("abcd"), None);
}

#[test]
fn day_03_rows_cut_in_the_middle() {
    assert_eq!(try_get_shared_letters("abca\n\nxyzz"), None);
    assert_eq!(try_get_shared_letters("abab\n\nxyyx\n"), Some(vec!['a', 'x']));
    assert_eq!(try_get_shared_letters("aba"), Some(vec!['a']));
    assert_eq!(try_get_shared_letters("abc"), None);
    assert_eq!(try_get_shared_letters("aab"), Some(vec!['a']));
    assert_eq!(try_get_shared_letters("aé"), None);
    assert_eq!(try_get_shared_letters("éaaé"), Some(vec!['é']));
    assert_eq!(try_get_shared_letters(""), Some(vec![]));
}

#[test]
fn day_03_item_without_priority() {
    assert_eq!(try_get_shared_letters("1a1b"), Some(vec!['1']));
    assert_eq!(try_puzzle_1("1a1b"), None);
    assert_eq!(try_puzzle_1(""), Some(String::from("0")));
    assert_eq!(try_puzzle_1("_a_b\nZZ"), Some(String::from("52")));
}

#[test]
fn day_03_badges() {
    assert_eq!(get_group_letters(RUCKSACKS), vec!['r', 'Z']);
    assert_eq!(get_group_shared_letter(&["abc", "cab", "xbx"]), Some('b'));
    assert_eq!(get_group_shared_letter(&["abc", "cab", "xyz"]), None);
    assert_eq!(get_group_shared_letter(&["abc"]), Some('a'));
    assert_eq!(get_group_shared_letter(&[""]), None);
}

#[test]
fn day_03_last_group_may_be_short() {
    assert_eq!(
        try_get_group_letters("ab\nbc\ncb\nxy\n"),
        Some(vec!['b', 'x'])
    );
    assert_eq!(try_get_group_letters("ab\nbc\ncb\nxy\nzy"), Some(vec!['b', 'y']));
    assert_eq!(try_get_group_letters("ab\ncd\n"), None);
    assert_eq!(try_puzzle_2("ab\nbc\ncb\nxy\n"), Some(String::from("26")));
    assert_eq!(try_puzzle_2("ab\ncd\n"), None);
}
