use advent_of_code::y2022::day_09::{
    debug_frame, debug_line, get_tail_pos, parse_input, puzzle_1, puzzle_2, try_get_tail_pos,
    try_parse_input, try_puzzle_1, try_puzzle_2, Direction, Pos, Rope,
};
use std::collections::BTreeSet;

const INPUT: &str = "R 5
U 8
L 8
D 3
R 17
D 10
L 25
U 20
";

#[test]
fn test_move_head_and_tail() {
    let mut rope = Rope {
        knots: vec![Pos { x: 3, y: 3 }, Pos { x: 2, y: 2 }],
    };
    let tail_pos = rope.move_head(Direction::Up, 1);
    assert_eq!(tail_pos.len(), 1);
    assert_eq!(rope.get_tail().unwrap().clone(), Pos { x: 3, y: 3 });
}

#[test]
fn day_09_test_parse_input() {
    let input = "R 4\nU 4\n";
    assert_eq!(
        parse_input(input),
        vec![(Direction::Right, 4), (Direction::Up, 4)]
    );
}

#[test]
fn day_09_test_puzzle_1() {
    assert_eq!(puzzle_1(INPUT), "88");
}

#[test]
fn day_09_test_puzzle_2() {
    assert_eq!(puzzle_2(INPUT), "36");
}

#[test]
fn the_small_sample() {
    let input = "R 4\nU 4\nL 3\nD 1\nR 4\nD 1\nL 5\nR 2\n";
    assert_eq!(try_puzzle_1(input), Some("13".to_string()));
    assert_eq!(try_puzzle_2(input), Some("1".to_string()));
    let mut rope = Rope::new(2, Pos { x: 0, y: 0 });
    let places = get_tail_pos(parse_input(input), &mut rope);
    assert_eq!(places.len(), 13);
    assert!(places.contains(&(0, 0)));
    assert!(places.contains(&(4, 3)));
    assert!(!places.contains(&(4, 4)));
    assert_eq!(rope.knots, vec![Pos { x: 2, y: 2 }, Pos { x: 1, y: 2 }]);
}

#[test]
fn lines_that_cannot_be_read_are_left_out() {
    assert_eq!(
        try_parse_input("R 4\nX 4\nU x\n\nLeft -2\n 7\nD +3"),
        Some(vec![
            (Direction::Right, 4),
            (Direction::Left, -2),
            (Direction::Down, 3)
        ])
    );
    assert_eq!(try_parse_input("R 4\nU4\n"), None);
    assert_eq!(try_puzzle_1("R4"), None);
    assert_eq!(try_puzzle_2(""), Some("1".to_string()));
    assert_eq!(Direction::try_from('U'), Ok(Direction::Up));
    assert_eq!(Direction::try_from('D'), Ok(Direction::Down));
    assert_eq!(Direction::try_from('R'), Ok(Direction::Right));
    assert_eq!(Direction::try_from('L'), Ok(Direction::Left));
    assert_eq!(Direction::try_from('u'), Err(()));
}

#[test]
fn ropes_without_a_tail_and_places_that_cannot_be_held() {
    let mut rope = Rope::new(0, Pos { x: 0, y: 0 });
    assert_eq!(rope.get_tail(), None);
    assert_eq!(rope.try_move_head(Direction::Up, 5), Some(vec![]));
    assert_eq!(try_get_tail_pos(vec![], &mut rope), None);
    let mut rope = Rope::new(1, Pos { x: 1, y: 1 });
    assert_eq!(rope.try_move_head(Direction::Left, 5), Some(vec![]));
    assert_eq!(rope.knots, vec![Pos { x: -4, y: 1 }]);
    assert_eq!(rope.try_move_head(Direction::Left, -5), Some(vec![]));
    assert_eq!(rope.knots, vec![Pos { x: -4, y: 1 }]);
    let mut rope = Rope {
        knots: vec![Pos { x: 2147483646, y: 0 }, Pos { x: 2147483645, y: 0 }],
    };
    assert_eq!(rope.try_move_head(Direction::Right, 2), None);
    assert_eq!(rope.knots[0], Pos { x: 2147483647, y: 0 });
    let mut rope = Rope {
        knots: vec![Pos { x: 0, y: 2147483647 }, Pos { x: 0, y: -1 }],
    };
    assert_eq!(rope.try_move_head(Direction::Left, 1), None);
    let mut rope = Rope {
        knots: vec![Pos { x: 0, y: 5 }, Pos { x: 3, y: 0 }, Pos { x: 3, y: 0 }],
    };
    assert_eq!(rope.try_move_head(Direction::Down, 1), Some(vec![]));
    assert_eq!(
        rope.knots,
        vec![Pos { x: 0, y: 4 }, Pos { x: 2, y: 1 }, Pos { x: 3, y: 0 }]
    );
    assert_eq!(
        rope.try_move_head(Direction::Left, 2),
        Some(vec![Pos { x: 2, y: 1 }, Pos { x: 1, y: 2 }])
    );
    let mut place = Pos { x: 1, y: 1 };
    assert!(place.can_move(Direction::Down, 2147483647));
    assert!(!place.can_move(Direction::Up, 2147483647));
    place.move_direction(Direction::Down, 3);
    place.move_direction(Direction::Right, -3);
    assert_eq!(place, Pos { x: -2, y: -2 });
}

#[test]
fn day_09_debug_picture() {
    let positions: BTreeSet<(i32, i32)> = [(0, 0), (1, 0), (2, 1), (-1, -2)].into_iter().collect();
    assert_eq!(debug_frame(&positions), (-1, 2, -2, 1));
    assert_eq!(debug_line(&positions, -1, 2, 1), "1\t...#");
    assert_eq!(debug_line(&positions, -1, 2, 0), "0\t.s#.");
    assert_eq!(debug_line(&positions, -1, 2, -1), "-1\t....");
    assert_eq!(debug_line(&positions, -1, 2, -2), "-2\t#...");
    assert_eq!(debug_line(&positions, 2, 1, 0), "0\t");
    assert_eq!(debug_line(&positions, 2, 2, 1), "1\t#");
}

#[test]
fn day_09_debug_picture_of_nothing() {
    let positions: BTreeSet<(i32, i32)> = BTreeSet::new();
    assert_eq!(debug_frame(&positions), (0, 0, 0, 0));
    assert_eq!(debug_line(&positions, 0, 0, 0), "0\ts");
    let far: BTreeSet<(i32, i32)> = [(5, 7)].into_iter().collect();
    assert_eq!(debug_frame(&far), (0, 5, 0, 7));
    let low: BTreeSet<(i32, i32)> = [(-5, -7), (-1, -9)].into_iter().collect();
    assert_eq!(debug_frame(&low), (-5, 0, -9, 0));
}
