use advent_of_code::y2022::day_17::{
    fall, get_floor, get_rock, parse_input, puzzle_1, puzzle_2, rock_intersects, rock_moves,
    try_puzzle_1, try_puzzle_2, Coord, Direction, Rock,
};
use std::collections::BTreeMap;

const INPUT: &str = ">>><<><>><<<>><>>><<<>>><<<><<<>><>><<>>";

#[test]
fn day_17_test_parse_input() {
    let input = "<><\n";
    let parsed = parse_input(input);
    assert_eq!(
        parsed,
        vec![Direction::Left, Direction::Right, Direction::Left]
    );
}

#[test]
fn day_17_test_puzzle_1() {
    assert_eq!(puzzle_1(INPUT), "3068");
}

#[test]
fn day_17_test_puzzle_2() {
    assert_eq!(puzzle_2(INPUT), "1514285714288");
}

#[test]
fn repetition_of_the_sample_tower() {
    let jets = parse_input(INPUT);
    assert_eq!(fall(&jets, 40).1, None);
    assert_eq!(fall(&jets, 80).1, Some((35, 53, 65)));
    assert_eq!(fall(&jets, 2022).1, Some((35, 53, 65)));
    assert_eq!(*fall(&jets, 85).0.keys().max().unwrap(), 130);
    assert_eq!(try_puzzle_2(INPUT), Some("1514285714288".to_string()));
}

#[test]
fn rocks_far_outside_the_chamber_do_not_move() {
    let mut fallen: BTreeMap<i32, Vec<(Coord, Rock)>> = BTreeMap::new();
    fallen.insert(0, vec![(Coord { x: 2, y: 0 }, get_rock(1))]);
    let bar = get_rock(1);
    for direction in [Direction::Left, Direction::Right, Direction::Down] {
        assert_eq!(rock_moves(direction, &fallen, &bar, Coord { x: 100, y: 5 }), None);
        assert_eq!(rock_moves(direction, &fallen, &bar, Coord { x: -100, y: 5 }), None);
        assert_eq!(rock_moves(direction, &fallen, &bar, Coord { x: 2, y: -100 }), None);
    }
    assert_eq!(
        rock_moves(Direction::Down, &fallen, &bar, Coord { x: 1, y: 2_000_000_100 }),
        Some(Coord { x: 1, y: 2_000_000_099 })
    );
    let wide = Rock::make(vec![(0, 0), (9, 0)]);
    assert_eq!(rock_moves(Direction::Right, &fallen, &wide, Coord { x: 0, y: 7 }), None);
    fallen.insert(2_000_000_000, vec![(Coord { x: 0, y: 2_000_000_000 }, get_rock(1))]);
    assert_eq!(
        rock_moves(Direction::Left, &fallen, &bar, Coord { x: 4, y: 2_000_000_000 }),
        None
    );
    assert_eq!(
        rock_moves(Direction::Left, &fallen, &bar, Coord { x: 3, y: 2_000_000_001 }),
        Some(Coord { x: 2, y: 2_000_000_001 })
    );
    assert_eq!(
        rock_moves(Direction::Down, &fallen, &bar, Coord { x: 3, y: 2_000_000_001 }),
        None
    );
}

#[test]
fn input_without_jets_has_no_answer() {
    assert_eq!(try_puzzle_1("\n"), None);
    assert_eq!(try_puzzle_2("no jets here"), None);
    assert_eq!(try_puzzle_1(INPUT), Some("3068".to_string()));
}

#[test]
fn rocks_come_in_five_shapes() {
    let bar = get_rock(1);
    assert_eq!(
        bar.parts,
        vec![
            Coord { x: 0, y: 0 },
            Coord { x: 1, y: 0 },
            Coord { x: 2, y: 0 },
            Coord { x: 3, y: 0 }
        ]
    );
    assert_eq!((bar.offset_w, bar.offset_h), (3, 0));
    let cross = get_rock(7);
    assert_eq!(cross.parts.len(), 5);
    assert_eq!((cross.offset_w, cross.offset_h), (2, 2));
    let corner = get_rock(3);
    assert_eq!(corner.parts[0], Coord { x: 2, y: 2 });
    assert_eq!((corner.offset_w, corner.offset_h), (2, 2));
    let pole = get_rock(4);
    assert_eq!((pole.offset_w, pole.offset_h), (0, 3));
    let block = get_rock(10);
    assert_eq!((block.offset_w, block.offset_h), (1, 1));
    let made = Rock::make(vec![(1, 5), (4, 2), (4, 0)]);
    assert_eq!((made.offset_w, made.offset_h), (4, 5));
    assert_eq!(made.parts[1], Coord { x: 4, y: 2 });
    assert_eq!(Coord { x: 1, y: -2 }.add(Coord { x: 3, y: 5 }), Coord { x: 4, y: 3 });
}

#[test]
fn rocks_intersect_where_parts_meet() {
    let bar = get_rock(1);
    let pole = get_rock(4);
    let origin = Coord { x: 0, y: 0 };
    assert!(rock_intersects(&bar, origin, &pole, Coord { x: 3, y: -3 }));
    assert!(rock_intersects(&bar, origin, &pole, Coord { x: 0, y: 0 }));
    assert!(!rock_intersects(&bar, origin, &pole, Coord { x: 4, y: 0 }));
    assert!(!rock_intersects(&bar, origin, &pole, Coord { x: 0, y: 1 }));
    assert!(!rock_intersects(&pole, Coord { x: 1, y: 1 }, &bar, origin));
}

#[test]
fn rocks_move_until_wall_floor_or_rock() {
    let mut fallen: BTreeMap<i32, Vec<(Coord, Rock)>> = BTreeMap::new();
    let bar = get_rock(1);
    let start = Coord { x: 2, y: 3 };
    assert_eq!(
        rock_moves(Direction::Right, &fallen, &bar, start),
        Some(Coord { x: 3, y: 3 })
    );
    assert_eq!(
        rock_moves(Direction::Right, &fallen, &bar, Coord { x: 3, y: 3 }),
        None
    );
    assert_eq!(
        rock_moves(Direction::Left, &fallen, &bar, Coord { x: 0, y: 3 }),
        None
    );
    assert_eq!(
        rock_moves(Direction::Down, &fallen, &bar, Coord { x: 2, y: 0 }),
        None
    );
    assert_eq!(
        rock_moves(Direction::Down, &fallen, &bar, Coord { x: 2, y: 1 }),
        Some(Coord { x: 2, y: 0 })
    );
    fallen.insert(0, vec![(Coord { x: 2, y: 0 }, get_rock(1))]);
    let cross = get_rock(2);
    assert_eq!(
        rock_moves(Direction::Down, &fallen, &cross, Coord { x: 2, y: 1 }),
        None
    );
    assert_eq!(
        rock_moves(Direction::Down, &fallen, &cross, Coord { x: 2, y: 2 }),
        Some(Coord { x: 2, y: 1 })
    );
    assert_eq!(
        rock_moves(Direction::Left, &fallen, &cross, Coord { x: 0, y: 0 }),
        None
    );
    assert_eq!(get_floor(&fallen), 0b0011_1100);
    fallen.insert(3, vec![(Coord { x: 0, y: 1 }, get_rock(3))]);
    assert_eq!(get_floor(&fallen), 0b0011_1111);
    fallen.insert(12, vec![(Coord { x: 6, y: 9 }, get_rock(4))]);
    assert_eq!(get_floor(&fallen), 0b0100_0000);
}

#[test]
fn first_rocks_of_the_sample() {
    let jets = parse_input(INPUT);
    let (fallen, cycle) = fall(&jets, 2);
    assert_eq!(cycle, None);
    assert_eq!(fallen.len(), 2);
    assert_eq!(fallen[&0][0].0, Coord { x: 2, y: 0 });
    assert_eq!(fallen[&3][0].0, Coord { x: 2, y: 1 });
    let (fallen, _) = fall(&jets, 10);
    assert_eq!(*fallen.keys().max().unwrap() + 1, 17);
    let (fallen, _) = fall(&jets, 0);
    assert!(fallen.is_empty());
}
