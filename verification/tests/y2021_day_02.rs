use advent_of_code::y2021::day_02::{
    follow, load_input, make_step, parse_line, puzzle_1, puzzle_2, try_load_input, try_puzzle_1,
    try_puzzle_2, Coord, LineError, Movement,
};

const COURSE: &str = "forward 5
down 5
forward 8
up 3
down 8
forward 2
";

#[test]
fn y2021_day_02_parse_line() {
    assert_eq!(parse_line("forward 5"), Ok(Movement::Forward(5)));
    assert_eq!(parse_line("down 0"), Ok(Movement::Down(0)));
    assert_eq!(parse_line("up +7"), Ok(Movement::Up(7)));
    assert_eq!(parse_line("forward"), Err(LineError::CannotSplit));
    assert_eq!(parse_line(""), Err(LineError::CannotSplit));
    assert_eq!(parse_line("forward x"), Err(LineError::BadDistance));
    assert_eq!(parse_line("up  3"), Err(LineError::BadDistance));
    assert_eq!(parse_line("up 3 "), Err(LineError::BadDistance));
    assert_eq!(parse_line("up 4294967296"), Err(LineError::BadDistance));
    assert_eq!(parse_line("back x"), Err(LineError::BadDistance));
    assert_eq!(parse_line("back 3"), Err(LineError::UnknownDirection));
    assert_eq!(parse_line("Up 3"), Err(LineError::UnknownDirection));
    assert_eq!(parse_line(" 3"), Err(LineError::UnknownDirection));
}

#[test]
fn y2021_day_02_load_input() {
    assert_eq!(
        load_input(COURSE),
        vec![
            Movement::Forward(5),
            Movement::Down(5),
            Movement::Forward(8),
            Movement::Up(3),
            Movement::Down(8),
            Movement::Forward(2)
        ]
    );
    assert_eq!(try_load_input(""), Some(vec![]));
    assert_eq!(try_load_input("up 1\n\nsideways 2"), None);
}

#[test]
fn y2021_day_02_puzzle_1() {
    assert_eq!(puzzle_1(COURSE), "150");
}

#[test]
fn y2021_day_02_puzzle_2() {
    assert_eq!(puzzle_2(COURSE), "900");
}

#[test]
fn y2021_day_02_steps() {
    let c = Coord {
        distance: 3,
        depth: 10,
        aim: 2,
    };
    assert_eq!(
        make_step(c, Movement::Forward(4), false),
        Some(Coord {
            distance: 7,
            depth: 10,
            aim: 2
        })
    );
    assert_eq!(
        make_step(c, Movement::Forward(4), true),
        Some(Coord {
            distance: 7,
            depth: 18,
            aim: 2
        })
    );
    assert_eq!(
        make_step(c, Movement::Down(4), false),
        Some(Coord {
            distance: 3,
            depth: 14,
            aim: 2
        })
    );
    assert_eq!(
        make_step(c, Movement::Down(4), true),
        Some(Coord {
            distance: 3,
            depth: 10,
            aim: 6
        })
    );
    assert_eq!(
        make_step(c, Movement::Up(2), false),
        Some(Coord {
            distance: 3,
            depth: 8,
            aim: 2
        })
    );
    assert_eq!(
        make_step(c, Movement::Up(2), true),
        Some(Coord {
            distance: 3,
            depth: 10,
            aim: 0
        })
    );
    assert_eq!(make_step(c, Movement::Up(11), false), None);
    assert_eq!(make_step(c, Movement::Up(3), true), None);
    assert_eq!(make_step(c, Movement::Forward(4294967293), false), None);
    assert_eq!(make_step(c, Movement::Forward(2147483648), true), None);
    assert_eq!(make_step(c, Movement::Down(4294967294), true), None);
    assert_eq!(make_step(c, Movement::Down(4294967286), false), None);
}

#[test]
fn y2021_day_02_courses_that_leave_the_range() {
    assert_eq!(try_puzzle_1("up 1"), None);
    assert_eq!(try_puzzle_2("up 1"), None);
    assert_eq!(try_puzzle_1("down 1\nup 2\ndown 5"), None);
    assert_eq!(try_puzzle_1("forward 65536\ndown 65536"), None);
    assert_eq!(
        try_puzzle_1("forward 65535\ndown 65537"),
        Some(String::from("4294967295"))
    );
    assert_eq!(try_puzzle_1("forward 5"), Some(String::from("0")));
    assert_eq!(try_puzzle_1(""), Some(String::from("0")));
    assert_eq!(try_puzzle_2("down 2\nforward 3"), Some(String::from("18")));
    assert_eq!(try_puzzle_1("go 2"), None);
    assert_eq!(follow(&vec![], true), Some(Coord { distance: 0, depth: 0, aim: 0 }));
}
