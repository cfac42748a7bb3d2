use advent_of_code::y2022::day_05::{
    get_crates, get_result, parse_input, parse_piles, parse_steps, puzzle_1, puzzle_2,
    try_parse_input, try_parse_piles, try_parse_steps, try_puzzle_1, try_puzzle_2, Crane, Step,
};

const INPUT: &str = "    [D]    
[N] [C]    
[Z] [M] [P]
 1   2   3 

move 1 from 2 to 1
move 3 from 1 to 3
move 2 from 2 to 1
move 1 from 1 to 2";

#[test]
fn test_get_crates() {
    let line = "[N] [C]    ";
    let crate_number = 3;
    let crates = get_crates(line, crate_number);
    assert_eq!(crates, vec![Some('N'), Some('C'), None]);
}

#[test]
fn test_parse_piles() {
    let piles_str = "[A]    \n[C] [D]\n 1  2 ";
    let piles = parse_piles(piles_str);
    assert_eq!(piles, vec![vec!['C', 'A'], vec!['D']]);
}

#[test]
fn test_parse_step() {
    let step_str = "move 3 from 1 to 3";
    let steps = parse_steps(step_str);
    assert_eq!(
        steps,
        vec![Step {
            number: 3,
            from: 1,
            to: 3
        }]
    );
}

#[test]
fn day_05_test_puzzle_1() {
    let result = puzzle_1(INPUT);

    assert_eq!(result, "CMZ");
}

#[test]
fn day_05_test_puzzle_2() {
    let result = puzzle_2(INPUT);

    assert_eq!(result, "MCD");
}

#[test]
fn crates_are_read_by_chunks_of_four() {
    assert_eq!(get_crates("", 2), vec![None, None]);
    assert_eq!(get_crates("[Z]", 1), vec![Some('Z')]);
    assert_eq!(get_crates("    [D]", 3), vec![None, Some('D'), None]);
    assert_eq!(get_crates(" 1   2 ", 2), vec![None, None]);
    assert_eq!(get_crates("  ab", 1), vec![Some('b')]);
    assert_eq!(get_crates("\u{2003}[Q]\u{a0}", 2), vec![Some('Q'), None]);
}

#[test]
fn drawings_with_lines_too_long_are_refused() {
    assert_eq!(try_parse_piles("[A] [B] [C]\n 1   2 "), None);
    assert_eq!(
        try_parse_piles("[A] [B]\n\n[C]\n 1   2 "),
        Some(vec![vec!['C', 'A'], vec!['B']])
    );
    assert_eq!(try_parse_piles(""), Some(vec![]));
    assert_eq!(try_parse_piles("x\n"), None);
    assert_eq!(try_parse_piles("\n12"), Some(vec![vec![], vec![]]));
}

#[test]
fn steps_are_read_around_from_and_to() {
    assert_eq!(
        try_parse_steps("move 10 from 2 to 11\n\n  3from1to2\n"),
        Some(vec![
            Step {
                number: 10,
                from: 2,
                to: 11
            },
            Step {
                number: 3,
                from: 1,
                to: 2
            }
        ])
    );
    assert_eq!(
        try_parse_steps("movemove 1 move from 2 to 3"),
        Some(vec![Step {
            number: 1,
            from: 2,
            to: 3
        }])
    );
    assert_eq!(try_parse_steps("move 1 from 2"), None);
    assert_eq!(try_parse_steps("move 1 to 2 from 3"), None);
    assert_eq!(try_parse_steps("move x from 2 to 3"), None);
    assert_eq!(try_parse_steps("move 1 from 2 to 4294967296"), None);
    assert_eq!(try_parse_steps(""), Some(vec![]));
}

#[test]
fn the_two_cranes_move_crates() {
    let step = Step {
        number: 2,
        from: 1,
        to: 3,
    };
    let mut piles = vec![vec!['a', 'b', 'c'], vec![], vec!['x']];
    assert!(step.can_move(&piles, Crane::Crane9000));
    step.perform_move(&mut piles, Crane::Crane9000);
    assert_eq!(piles, vec![vec!['a'], vec![], vec!['x', 'c', 'b']]);
    let mut piles = vec![vec!['a', 'b', 'c'], vec![], vec!['x']];
    step.perform_move(&mut piles, Crane::Crane9001);
    assert_eq!(piles, vec![vec!['a'], vec![], vec!['x', 'b', 'c']]);
    assert_eq!(get_result(&piles), "ac");
    let back = Step {
        number: 3,
        from: 3,
        to: 3,
    };
    assert!(back.can_move(&piles, Crane::Crane9001));
    back.perform_move(&mut piles, Crane::Crane9001);
    assert_eq!(piles, vec![vec!['a'], vec![], vec!['x', 'b', 'c']]);
    let many = Step {
        number: 7,
        from: 1,
        to: 1,
    };
    assert!(many.can_move(&piles, Crane::Crane9000));
    assert!(!many.can_move(&piles, Crane::Crane9001));
    many.perform_move(&mut piles, Crane::Crane9000);
    assert_eq!(piles, vec![vec!['a'], vec![], vec!['x', 'b', 'c']]);
    let none = Step {
        number: 0,
        from: 9,
        to: 0,
    };
    assert!(none.can_move(&piles, Crane::Crane9001));
    none.perform_move(&mut piles, Crane::Crane9001);
    assert_eq!(piles.len(), 3);
    let far = Step {
        number: 1,
        from: 1,
        to: 4,
    };
    assert!(!far.can_move(&piles, Crane::Crane9000));
    let empty = Step {
        number: 1,
        from: 2,
        to: 1,
    };
    assert!(!empty.can_move(&piles, Crane::Crane9000));
}

#[test]
fn input_needs_an_empty_line_and_steps_that_can_be_made() {
    let (piles, steps) = parse_input(INPUT);
    assert_eq!(piles, vec![vec!['Z', 'N'], vec!['M', 'C', 'D'], vec!['P']]);
    assert_eq!(steps.len(), 4);
    assert!(try_parse_input("[A]\n 1 \nmove 1 from 1 to 1").is_none());
    assert_eq!(try_puzzle_1("[A]\n 1 \n\nmove 2 from 1 to 2"), None);
    assert_eq!(
        try_puzzle_1("[A]     \n[B]     \n 1   2 \n\nmove 2 from 1 to 2"),
        Some("B".to_string())
    );
    assert_eq!(
        try_puzzle_2("[A]     \n[B]     \n 1   2 \n\nmove 2 from 1 to 2"),
        Some("A".to_string())
    );
    assert_eq!(try_puzzle_2(INPUT), Some("MCD".to_string()));
}
