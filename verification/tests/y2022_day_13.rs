use advent_of_code::y2022::day_13::{
    find, keep, make_divider, parse_input, parse_input_list, puzzle_1, puzzle_2, same_packet,
    try_parse_input, try_puzzle_1, try_puzzle_2, weigh, ListElement,
};
use advent_of_code::y2022::day_13::ListElement::{List, Number};
use std::cmp::Ordering;

const INPUT: &str = "[1,1,3,1,1]
[1,1,5,1,1]

[[1],[2,3,4]]
[[1],4]

[9]
[[8,7,6]]

[[4,4],4,4]
[[4,4],4,4,4]

[7,7,7,7]
[7,7,7]

[]
[3]

[[[]]]
[[]]

[1,[2,[3,[4,[5,6,7]]]],8,9]
[1,[2,[3,[4,[5,6,0]]]],8,9]
";

fn read(text: &str) -> ListElement {
    let v: Vec<char> = text.chars().collect();
    let (packet, end) = parse_input_list(&v, 0).unwrap();
    assert_eq!(end, v.len());
    packet
}

#[test]
fn test_can_parse_list() {
    let input = "[[4,4],4,4]";
    let result = read(input);
    assert_eq!(
        result,
        List(vec![List(vec![Number(4), Number(4)]), Number(4), Number(4)])
    );

    let input = "[]";
    let result = read(input);
    assert_eq!(result, List(vec![]));
}

#[test]
fn day_13_test_can_parse_input() {
    let result = parse_input(INPUT);

    assert_eq!(result.len(), 8);
}

#[test]
fn test_orderings() {
    let input = "[1,1,3,1,1]\n[1,1,5,1,1]";
    let (a, b) = parse_input(input).first().unwrap().clone();

    assert!(a < b);

    let input = "[[1],[2,3,4]]\n[[1],4]";
    let (a, b) = parse_input(input).first().unwrap().clone();

    assert!(a < b);

    let input = "[9]\n[[8,7,6]]";
    let (a, b) = parse_input(input).first().unwrap().clone();

    assert!(a > b);

    let input = "[[4,4],4,4]\n[[4,4],4,4,4]";
    let (a, b) = parse_input(input).first().unwrap().clone();

    assert!(a < b);

    let input = "[7,7,7,7]\n[7,7,7]";
    let (a, b) = parse_input(input).first().unwrap().clone();

    assert!(a > b);

    let input = "[1,[2,[3,[4,[5,6,7]]]],8,9]\n[1,[2,[3,[4,[5,6,0]]]],8,9]";
    let (a, b) = parse_input(input).first().unwrap().clone();

    assert!(a > b);
}

#[test]
fn day_13_test_puzzle_1() {
    assert_eq!(puzzle_1(INPUT), "13");
}

#[test]
fn day_13_test_puzzle_2() {
    assert_eq!(puzzle_2(INPUT), "140");
}

#[test]
fn numbers_against_lists() {
    assert_eq!(weigh(&read("[1]"), &read("[[1]]")), Ordering::Equal);
    assert_eq!(weigh(&read("[[1]]"), &read("[1]")), Ordering::Equal);
    assert_eq!(weigh(&read("[[[2]]]"), &read("[2]")), Ordering::Equal);
    assert_eq!(weigh(&read("[1]"), &read("[[1,0]]")), Ordering::Less);
    assert_eq!(weigh(&read("[[1,0]]"), &read("[1]")), Ordering::Greater);
    assert_eq!(weigh(&read("[3]"), &read("[[]]")), Ordering::Greater);
    assert_eq!(weigh(&read("[[]]"), &read("[3]")), Ordering::Less);
    assert_eq!(weigh(&read("[[]]"), &read("[[[]]]")), Ordering::Less);
    assert_eq!(weigh(&read("[]"), &read("[]")), Ordering::Equal);
    assert_eq!(weigh(&read("[2,[1]]"), &read("[[2],1,0]")), Ordering::Less);
    assert_eq!(read("[255]").cmp(&read("[0]")), Ordering::Greater);
    assert_eq!(read("[5]").partial_cmp(&read("[5]")), Some(Ordering::Equal));
    assert!(read("[1]") <= read("[[1]]"));
    assert!(read("[1]") >= read("[[1]]"));
    assert!(read("[1]") != read("[[1]]"));
    assert!(same_packet(&read("[1,[2]]"), &read("[1,[2]]")));
    assert!(!same_packet(&read("[1,[2]]"), &read("[1,2]")));
    assert!(!same_packet(&read("[1,[2]]"), &read("[1,[2],3]")));
    assert_eq!(read("[1,[2,[]]]").clone(), read("[1,[2,[]]]"));
    assert_eq!(make_divider(6), read("[[6]]"));
}

#[test]
fn text_that_writes_no_packets() {
    let v: Vec<char> = "[1,]".chars().collect();
    assert_eq!(parse_input_list(&v, 0), None);
    let v: Vec<char> = "[256]".chars().collect();
    assert_eq!(parse_input_list(&v, 0), None);
    let v: Vec<char> = "[1 ,2]".chars().collect();
    assert_eq!(parse_input_list(&v, 0), None);
    let v: Vec<char> = "x[1,[],007]]".chars().collect();
    assert_eq!(parse_input_list(&v, 0), None);
    assert_eq!(parse_input_list(&v, 1), Some((read("[1,[],7]"), 11)));
    assert!(try_parse_input("[1]").is_none());
    assert!(try_parse_input("\n[1]\n[2]").is_none());
    assert_eq!(try_parse_input("[1]\n[2]\n\n\n[3]\n[4]").unwrap().len(), 1);
    assert_eq!(try_parse_input("[1]\n[2]\n\n[3]\n[4]x").unwrap().len(), 2);
    assert_eq!(try_puzzle_1(""), None);
    assert_eq!(try_puzzle_2("[1]\n"), None);
    assert_eq!(try_puzzle_1("[2]\n[1]"), Some("0".to_string()));
    assert_eq!(try_puzzle_1("[1]\n[[1]]\n\n[[1]]\n[1]"), Some("3".to_string()));
}

#[test]
fn packets_that_are_level_with_a_divider() {
    assert_eq!(try_puzzle_2("[1]\n[3]"), Some("8".to_string()));
    assert_eq!(try_puzzle_2("[2]\n[3]"), None);
    assert_eq!(try_puzzle_2("[[[6]]]\n[3]"), None);
    assert_eq!(try_puzzle_2("[[2]]\n[[6]]"), Some("2".to_string()));
    assert_eq!(try_puzzle_2("[7]\n[7]"), Some("2".to_string()));
    assert_eq!(try_puzzle_2("[1]\n[[1]]\n\n[[[1]]]\n[4]"), Some("8".to_string()));
    let mut list = vec![];
    keep(&mut list, read("[3]"));
    keep(&mut list, read("[1]"));
    keep(&mut list, read("[[3]]"));
    keep(&mut list, read("[2]"));
    keep(&mut list, read("[]"));
    assert_eq!(list, vec![read("[]"), read("[1]"), read("[2]"), read("[3]")]);
    assert_eq!(find(&list, &read("[2]")), 2);
    assert_eq!(find(&list, &read("[[3]]")), 4);
}
