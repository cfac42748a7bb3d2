use advent_of_code::y2022::day_11::{
    gcd_of_two_numbers, lcm, map_operand, monkey_play, parse_input, puzzle_1, puzzle_2,
    try_lcm, try_monkey_play, try_parse_input, try_puzzle_1, try_puzzle_2, Monkey, Operand,
    Operation, Operator,
};
use std::collections::VecDeque;

const INPUT: &str = "Monkey 0:
  Starting items: 79, 98
  Operation: new = old * 19
  Test: divisible by 23
    If true: throw to monkey 2
    If false: throw to monkey 3

Monkey 1:
  Starting items: 54, 65, 75, 74
  Operation: new = old + 6
  Test: divisible by 19
    If true: throw to monkey 2
    If false: throw to monkey 0

Monkey 2:
  Starting items: 79, 60, 97
  Operation: new = old * old
  Test: divisible by 13
    If true: throw to monkey 1
    If false: throw to monkey 3

Monkey 3:
  Starting items: 74
  Operation: new = old + 3
  Test: divisible by 17
    If true: throw to monkey 0
    If false: throw to monkey 1
";

#[test]
fn day_11_test_parse_monkey() {
    let input = "Monkey 1:
  Starting items: 54, 65, 75, 74
  Operation: new = old + 6
  Test: divisible by 19
    If true: throw to monkey 2
    If false: throw to monkey 0";

    let mut monkeys = parse_input(input);
    assert_eq!(monkeys.len(), 1);
    let monkey = monkeys.pop().unwrap();

    assert_eq!(monkey.items, vec![54, 65, 75, 74]);
    assert_eq!(monkey.test_number, 19);
    assert_eq!(monkey.recipient_success, 2);
    assert_eq!(monkey.recipient_failed, 0);
    assert_eq!(
        monkey.operation,
        Operation {
            left: Operand::Old,
            operator: Operator::Add,
            right: Operand::Number(6)
        }
    );
}

#[test]
fn day_11_test_puzzle_1() {
    assert_eq!(puzzle_1(INPUT), "10605");
}

#[test]
fn day_11_test_puzzle_2() {
    assert_eq!(puzzle_2(INPUT), "2713310158");
}

#[test]
fn monkeys_count_what_they_throw() {
    assert_eq!(
        monkey_play(20, parse_input(INPUT), true),
        vec![101, 95, 7, 105]
    );
    assert_eq!(
        monkey_play(1, parse_input(INPUT), false),
        vec![2, 4, 3, 6]
    );
    assert_eq!(
        monkey_play(20, parse_input(INPUT), false),
        vec![99, 97, 8, 103]
    );
    assert_eq!(
        try_monkey_play(1000, parse_input(INPUT), false),
        Some(vec![5204, 4792, 199, 5192])
    );
    assert_eq!(try_monkey_play(0, parse_input(INPUT), true), Some(vec![0, 0, 0, 0]));
    assert_eq!(try_puzzle_1(INPUT), Some("10605".to_string()));
    assert_eq!(try_puzzle_2(INPUT), Some("2713310158".to_string()));
}

#[test]
fn a_monkey_inspects_and_throws() {
    let mut monkey = Monkey {
        items: VecDeque::from(vec![79, 98, 6148914691236517205]),
        operation: Operation {
            left: Operand::Old,
            operator: Operator::Multiply,
            right: Operand::Number(19),
        },
        test_number: 23,
        recipient_success: 2,
        recipient_failed: 3,
    };
    assert_eq!(monkey.play(true, 3), Some((3, 500)));
    assert_eq!(monkey.play(false, 96577), Some((3, 1862)));
    assert_eq!(monkey.play(true, 3), None);
    assert_eq!(monkey.items.len(), 0);
    assert_eq!(monkey.play(true, 3), None);
    monkey.throw(5);
    monkey.throw(7);
    assert_eq!(monkey.items, vec![5, 7]);
    assert_eq!(monkey.play(false, 4), Some((3, 19)));
    let twice = Operation {
        left: Operand::Old,
        operator: Operator::Add,
        right: Operand::Old,
    };
    assert_eq!(twice.apply(21), Some(42));
    assert_eq!(twice.apply(u64::MAX), None);
    let fixed = Operation {
        left: Operand::Number(6),
        operator: Operator::Multiply,
        right: Operand::Number(7),
    };
    assert_eq!(fixed.apply(0), Some(42));
}

#[test]
fn least_common_multiples_from_the_last_number_back() {
    assert_eq!(gcd_of_two_numbers(12, 18), 6);
    assert_eq!(gcd_of_two_numbers(0, 5), 5);
    assert_eq!(gcd_of_two_numbers(5, 0), 5);
    assert_eq!(gcd_of_two_numbers(0, 0), 0);
    assert_eq!(lcm(&vec![23, 19, 13, 17]), 96577);
    assert_eq!(lcm(&vec![4, 6, 10]), 60);
    assert_eq!(lcm(&vec![7]), 7);
    assert_eq!(try_lcm(&vec![]), None);
    assert_eq!(try_lcm(&vec![0, 0]), None);
    assert_eq!(try_lcm(&vec![0, 3]), Some(0));
    assert_eq!(try_lcm(&vec![4294967296, 4294967296, 4294967297]), None);
    assert_eq!(try_lcm(&vec![4294967296, 4294967296]), None);
    assert_eq!(try_lcm(&vec![4294967296, 4294967295]), Some(18446744069414584320));
}

#[test]
fn operands_are_old_or_numbers() {
    assert_eq!(map_operand("old"), Some(Operand::Old));
    assert_eq!(map_operand("19"), Some(Operand::Number(19)));
    assert_eq!(map_operand("18446744073709551616"), None);
    assert_eq!(map_operand("new"), None);
    assert_eq!(map_operand(""), None);
}

#[test]
fn monkeys_that_cannot_be_read_or_cannot_play() {
    assert_eq!(try_parse_input("").unwrap().len(), 0);
    assert_eq!(try_parse_input("Monkey 0:\n  Starting items: 1\n").unwrap().len(), 0);
    let one = "Monkey 0:\n  Starting items: \n  Operation: new = 3*old\n  Test: divisible by 2\n    If true: throw to monkey 1\n    If false: throw to monkey 0";
    let monkeys = try_parse_input(one).unwrap();
    assert_eq!(monkeys.len(), 1);
    assert_eq!(monkeys[0].items.len(), 0);
    assert_eq!(
        monkeys[0].operation,
        Operation {
            left: Operand::Number(3),
            operator: Operator::Multiply,
            right: Operand::Old
        }
    );
    assert_eq!((monkeys[0].recipient_success, monkeys[0].recipient_failed), (1, 0));
    assert_eq!(try_monkey_play(1, monkeys, true), None);
    assert_eq!(try_puzzle_1(one), None);
    assert!(try_parse_input(&one.replace("3*old", "3-old")).is_none());
    assert!(try_parse_input(&one.replace("3*old", "18446744073709551616*old")).is_none());
    assert_eq!(try_parse_input(&one.replace("3*old", "3*new")).unwrap().len(), 0);
    assert_eq!(try_parse_input(&one.replace("monkey 1", "monkey 256")).unwrap().len(), 0);
    let two = format!("{}\n\n{}", INPUT, one.replace("new = 3", "new = 18446744073709551616"));
    assert!(try_parse_input(&two).is_none());
    let two = format!("{}\n\n{}", INPUT, one.replace("Monkey", "Donkey"));
    assert_eq!(try_parse_input(&two).unwrap().len(), 4);
    assert_eq!(try_puzzle_1("nothing"), None);
    assert_eq!(try_puzzle_2(""), None);
    let zero = INPUT.replace("divisible by 13", "divisible by 0");
    assert_eq!(try_puzzle_1(&zero), None);
    let own = INPUT.replace("If true: throw to monkey 0", "If true: throw to monkey 3");
    assert_eq!(try_puzzle_2(&own), None);
    let far = INPUT.replace("If true: throw to monkey 0", "If true: throw to monkey 4");
    assert_eq!(try_puzzle_2(&far), None);
}
