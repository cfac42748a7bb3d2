use advent_of_code::y2022::day_10::{
    complete_history, format_drawing, get_drawing, get_signal_strengths, parse_input,
    try_get_drawing, try_get_signal_strengths, try_parse_input, try_puzzle_1, try_puzzle_2,
    try_run, Instruction, CPU,
};
use std::collections::BTreeMap;

#[test]
fn test_parse_instruction() {
    let instructions = "noop\naddx 3\naddx -5";
    let instructions = parse_input(instructions);
    assert_eq!(
        instructions,
        vec![
            Instruction::Noop,
            Instruction::Addx(3),
            Instruction::Addx(-5)
        ]
    );
}

#[test]
fn test_get_history() {
    let mut history = BTreeMap::new();
    history.insert(0, 1);
    history.insert(2, 3);
    history.insert(3, 4);
    history.insert(6, 8);

    assert_eq!(complete_history(history), vec![1, 1, 3, 4, 4, 4, 8]);
}

#[test]
fn test_get_signal_strength() {
    let mut history = BTreeMap::new();
    history.insert(19, 3);
    history.insert(21, 5);
    history.insert(40, 9);
    history.insert(59, 23);

    assert_eq!(get_signal_strengths(0, 20, history), vec![3 * 20, 40 * 5]);
}

#[test]
fn the_small_program() {
    let program = "noop\naddx 3\naddx -5";
    let history = try_run(&parse_input(program)).unwrap();
    let cycles: Vec<(usize, i32)> = history.iter().map(|(k, v)| (*k, *v)).collect();
    assert_eq!(cycles, vec![(0, 1), (1, 1), (3, 4), (5, -1)]);
    assert_eq!(complete_history(history.clone()), vec![1, 1, 1, 4, 4, -1]);
    assert_eq!(try_puzzle_1(program), Some("0".to_string()));
    assert_eq!(try_puzzle_2(program), Some("\n#####.".to_string()));
    assert_eq!(
        get_drawing(4, history.clone()),
        vec![vec![true, true, true, true], vec![false, false]]
    );
    assert_eq!(
        get_drawing(6, history.clone()),
        vec![vec![true, true, true, true, true, false]]
    );
    assert_eq!(try_get_drawing(0, history.clone()), None);
    assert_eq!(get_signal_strengths(2, 2, history.clone()), vec![2, 16]);
    assert_eq!(get_signal_strengths(9, 1, history), Vec::<i32>::new());
    assert_eq!(
        format_drawing(vec![vec![true, false], vec![], vec![false]]),
        "\n#.\n\n."
    );
    assert_eq!(format_drawing(vec![]), "");
}

#[test]
fn histories_before_the_first_value_and_without_values() {
    let mut history = BTreeMap::new();
    assert_eq!(complete_history(history.clone()), Vec::<i32>::new());
    assert_eq!(try_get_signal_strengths(1, 1, history.clone()), None);
    assert_eq!(try_get_drawing(40, history.clone()), Some(vec![]));
    history.insert(2, -7);
    assert_eq!(complete_history(history.clone()), vec![0, 0, -7]);
    assert_eq!(try_get_signal_strengths(1, 1, history.clone()), Some(vec![0, 0]));
    history.insert(3, 2147483647);
    history.insert(5, 1);
    assert_eq!(try_get_signal_strengths(1, 5, history.clone()), Some(vec![0]));
    assert_eq!(try_get_signal_strengths(1, 3, history.clone()), None);
    let mut low = BTreeMap::new();
    low.insert(1, -2147483646);
    assert_eq!(try_get_drawing(40, low.clone()), Some(vec![vec![true, false]]));
    low.insert(2, -2147483647);
    assert_eq!(try_get_drawing(40, low), None);
}

#[test]
fn programs_that_cannot_be_made_out() {
    assert_eq!(try_parse_input(""), Some(vec![]));
    assert_eq!(try_parse_input("noop\n"), Some(vec![Instruction::Noop]));
    assert_eq!(try_parse_input("noop\n\nnoop"), Some(vec![Instruction::Noop]));
    assert_eq!(try_parse_input("noop addx 1"), Some(vec![Instruction::Noop]));
    assert_eq!(
        try_parse_input("addx \t +7\nnoop"),
        Some(vec![Instruction::Addx(7), Instruction::Noop])
    );
    assert_eq!(try_parse_input("1 noop"), Some(vec![]));
    assert_eq!(try_parse_input("addx1"), Some(vec![]));
    assert_eq!(try_parse_input("noop\naddx x"), Some(vec![Instruction::Noop]));
    assert_eq!(try_parse_input("noop\naddx 2147483648"), Some(vec![Instruction::Noop]));
    assert_eq!(try_parse_input("noop\naddx"), None);
    assert_eq!(try_parse_input("noop\naddx  "), None);
    assert_eq!(try_parse_input("noop\nnop"), None);
    assert_eq!(try_parse_input("Noop"), None);
    assert_eq!(try_parse_input("noopaddx 1"), None);
    assert_eq!(try_puzzle_1("jump 3"), None);
    assert_eq!(try_puzzle_2("addx"), None);
    assert_eq!(try_puzzle_1("addx 2147483647\naddx 1"), None);
    assert_eq!(try_puzzle_2("addx -2147483648\naddx -2"), None);
    assert_eq!(try_run(&vec![Instruction::Addx(2147483646)]).unwrap().len(), 2);
    assert!(try_run(&vec![Instruction::Addx(2147483647)]).is_none());
}

#[test]
fn the_processor_counts_cycles() {
    let mut cpu = CPU::new();
    assert_eq!((cpu.counter, cpu.register_x), (0, 1));
    cpu.cycle();
    cpu.execute(Instruction::Noop);
    cpu.execute(Instruction::Addx(-9));
    assert_eq!((cpu.counter, cpu.register_x), (4, -8));
}

#[test]
fn signal_strengths_of_a_longer_program() {
    let mut program = String::new();
    for k in 0..60 {
        program.push_str(if k % 3 == 0 { "noop\n" } else { "addx 2\n" });
        program.push_str("addx -1\n");
    }
    let history = try_run(&parse_input(&program)).unwrap();
    let completed = complete_history(history);
    assert_eq!(completed.len(), 221);
    let mut expected: i32 = 0;
    let mut cycle = 20;
    while cycle < completed.len() {
        expected += cycle as i32 * completed[cycle - 1];
        cycle += 40;
    }
    assert_eq!(try_puzzle_1(&program), Some(expected.to_string()));
    let picture = try_puzzle_2(&program).unwrap();
    let lines: Vec<&str> = picture.split('\n').collect();
    assert_eq!(lines.len(), 7);
    assert_eq!(lines[0], "");
    assert!(lines[1..6].iter().all(|l| l.len() == 40));
    assert_eq!(lines[6].len(), 21);
    for (i, v) in completed.iter().enumerate() {
        let lit = (v - (i % 40) as i32).abs() < 2;
        let c = lines[1 + i / 40].as_bytes()[i % 40];
        assert_eq!(c == b'#', lit);
    }
}
