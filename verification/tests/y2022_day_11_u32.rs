use advent_of_code::y2022::day_11_u32::{
    map_operand, monkey_play, parse_input, puzzle_1, try_monkey_play, try_parse_input,
    try_puzzle_1, try_puzzle_2, Monkey, Operand, Operation, Operator,
};
use std::collections::VecDeque;

const INPUT: &str = "Monkey 0:
  Starting items: 79, 98
  Operation: new = old * 19
  Test: divisible by 23
    If true: throw to monkey 2
    If false: throw to monkey 3

Monkey 1:
  Starting items: 54, 65, 75, 74
  Operation: new = old + 6
  Test: divisible by 19
    If true: throw to monkey 2
    If false: throw to monkey 0

Monkey 2:
  Starting items: 79, 60, 97
  Operation: new = old * old
  Test: divisible by 13
    If true: throw to monkey 1
    If false: throw to monkey 3

Monkey 3:
  Starting items: 74
  Operation: new = old + 3
  Test: divisible by 17
    If true: throw to monkey 0
    If false: throw to monkey 1
";

#[test]
fn test_parse_monkey() {
    let input = "Monkey 1:
  Starting items: 54, 65, 75, 74
  Operation: new = old + 6
  Test: divisible by 19
    If true: throw to monkey 2
    If false: throw to monkey 0";

    let mut monkeys = parse_input(input);
    assert_eq!(monkeys.len(), 1);
    let monkey = monkeys.pop().unwrap();

    assert_eq!(monkey.items, vec![54, 65, 75, 74]);
    assert_eq!(monkey.test_number, 19);
    assert_eq!(monkey.recipient_success, 2);
    assert_eq!(monkey.recipient_failed, 0);
}

#[test]
fn twenty_rounds_with_divided_worry() {
    assert_eq!(puzzle_1(INPUT), "10605");
    assert_eq!(try_puzzle_1(INPUT), Some("10605".to_string()));
    assert_eq!(
        monkey_play(20, parse_input(INPUT), true),
        vec![101, 95, 7, 105]
    );
    assert_eq!(
        monkey_play(1, parse_input(INPUT), false),
        vec![2, 4, 3, 6]
    );
    assert_eq!(try_puzzle_2("nothing"), None);
}

#[test]
fn worry_levels_of_32_bits() {
    let mut monkey = Monkey {
        items: VecDeque::from(vec![79, 98, 1431655765, 5]),
        operation: Operation {
            left: Operand::Old,
            operator: Operator::Multiply,
            right: Operand::Number(19),
        },
        test_number: 23,
        recipient_success: 2,
        recipient_failed: 3,
    };
    assert_eq!(monkey.play(true), Some((3, 500)));
    assert_eq!(monkey.play(false), Some((3, 1862)));
    assert_eq!(monkey.play(true), None);
    assert_eq!(monkey.items, vec![5]);
    let less = Operation {
        left: Operand::Old,
        operator: Operator::Subtract,
        right: Operand::Number(7),
    };
    assert_eq!(less.apply(9), Some(2));
    assert_eq!(less.apply(6), None);
    assert_eq!(map_operand("4294967295"), Some(Operand::Number(4294967295)));
    assert_eq!(map_operand("4294967296"), None);
    let one = "Monkey 0:\n  Starting items: 9\n  Operation: new = old - 4\n  Test: divisible by 5\n    If true: throw to monkey 1\n    If false: throw to monkey 1\n\nMonkey 1:\n  Starting items: 2\n  Operation: new = old - 4\n  Test: divisible by 5\n    If true: throw to monkey 0\n    If false: throw to monkey 0";
    let monkeys = try_parse_input(one).unwrap();
    assert_eq!(monkeys[0].operation.operator, Operator::Subtract);
    assert_eq!(try_monkey_play(3, monkeys, false), Some(vec![1, 1]));
    assert!(try_parse_input(&one.replace("Starting items: 9", "Starting items: 4294967296")).unwrap().is_empty());
}
