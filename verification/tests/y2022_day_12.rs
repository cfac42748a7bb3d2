use advent_of_code::y2022::day_12::{
    find_accesible_squares, find_solution, parse_input, puzzle_1, puzzle_2,
    try_find_accesible_squares, try_find_solution, try_parse_input, try_puzzle_1, try_puzzle_2,
    Coords, HeightMap, TreeNode,
};
use std::cmp::Ordering;

const INPUT: &str = "Sabqponm
abcryxxl
accszExk
acctuvwj
abdefghi
";

#[test]
fn day_12_test_can_parse_input() {
    let input = "Sab\nabc\nacE\n";

    let (start, goal, height_map) = parse_input(input);
    assert_eq!(start, Coords { x: 0, y: 0 });
    assert_eq!(goal, Coords { x: 2, y: 2 });

    assert_eq!(height_map[&(goal.x, goal.y)], 'z');
    assert_eq!(height_map[&(1, 1)], 'b');
}

#[test]
fn test_find_accessible_squares() {
    let input = "Sab\nabc\nacE\n";

    let (_, _, height_map) = parse_input(input);

    let accessible_positions = find_accesible_squares(&height_map, Coords { x: 2, y: 1 });
    assert_eq!(
        accessible_positions,
        vec![Coords { x: 1, y: 1 }, Coords { x: 2, y: 0 }]
    );
}

#[test]
fn day_12_test_puzzle_1() {
    let result = puzzle_1(INPUT);

    assert_eq!(result, "31");
}

#[test]
fn day_12_test_puzzle_2() {
    let result = puzzle_2(INPUT);

    assert_eq!(result, "29");
}

#[test]
fn the_first_of_several_marks_counts() {
    let (start, goal, height_map) = parse_input("aE\nS\n\nbSE");
    assert_eq!(start, Coords { x: 0, y: 1 });
    assert_eq!(goal, Coords { x: 1, y: 0 });
    assert_eq!(height_map.len(), 6);
    assert_eq!(height_map[&(0, 1)], 'a');
    assert_eq!(height_map[&(1, 2)], 'S');
    assert_eq!(height_map[&(2, 2)], 'E');
    assert_eq!(height_map[&(1, 0)], 'z');
    assert!(try_parse_input("abc\nabE").is_none());
    assert!(try_parse_input("abc\nabS").is_none());
    assert_eq!(try_puzzle_1("abc"), None);
    assert_eq!(try_puzzle_2(""), None);
}

#[test]
fn squares_shift_but_not_over_the_edge() {
    let origin = Coords { x: 0, y: 0 };
    assert_eq!(origin.shift_left(), origin);
    assert_eq!(origin.shift_up(), origin);
    assert_eq!(origin.shift_right(), Coords { x: 1, y: 0 });
    assert_eq!(origin.shift_down(), Coords { x: 0, y: 1 });
    let corner = Coords {
        x: usize::MAX,
        y: usize::MAX,
    };
    assert_eq!(corner.shift_right(), corner);
    assert_eq!(corner.shift_down(), corner);
    assert_eq!(
        corner.shift_left(),
        Coords {
            x: usize::MAX - 1,
            y: usize::MAX
        }
    );
    assert_eq!(
        Coords { x: 4, y: 7 }.shift_up(),
        Coords { x: 4, y: 6 }
    );
}

#[test]
fn steps_lead_at_most_one_up() {
    let (_, _, height_map) = parse_input("Sbd\nbcE\n");
    assert_eq!(
        find_accesible_squares(&height_map, Coords { x: 0, y: 0 }),
        vec![
            Coords { x: 0, y: 0 },
            Coords { x: 0, y: 0 },
            Coords { x: 1, y: 0 },
            Coords { x: 0, y: 1 }
        ]
    );
    assert_eq!(
        find_accesible_squares(&height_map, Coords { x: 1, y: 0 }),
        vec![Coords { x: 0, y: 0 }, Coords { x: 1, y: 0 }, Coords { x: 1, y: 1 }]
    );
    assert_eq!(
        find_accesible_squares(&height_map, Coords { x: 2, y: 1 }),
        vec![Coords { x: 1, y: 1 }, Coords { x: 2, y: 0 }]
    );
    assert_eq!(try_find_accesible_squares(&height_map, Coords { x: 5, y: 5 }), None);
    let mut height_map: HeightMap = HeightMap::new();
    height_map.insert((0, 0), '\u{7f}');
    height_map.insert((1, 0), '\u{80}');
    height_map.insert((2, 0), '\u{181}');
    assert_eq!(try_find_accesible_squares(&height_map, Coords { x: 0, y: 0 }), None);
    assert_eq!(
        try_find_accesible_squares(&height_map, Coords { x: 2, y: 0 }),
        Some(vec![Coords { x: 1, y: 0 }, Coords { x: 2, y: 0 }])
    );
    assert_eq!(try_puzzle_1("S\u{80}E"), None);
}

#[test]
fn the_way_found_is_a_shortest_one() {
    let (start, goal, height_map) = parse_input(INPUT);
    let way = find_solution(height_map, Some(start), goal);
    assert_eq!(way.len(), 31);
    assert_eq!(way[30], goal);
    assert_eq!(way[0], Coords { x: 0, y: 1 });
    let (start, goal, height_map) = parse_input("Sab\nabc\nacE\n");
    assert_eq!(
        find_solution(height_map, Some(start), goal),
        Vec::<Coords>::new()
    );
    let (start, goal, height_map) = parse_input("SbcdefghijklmnopqrstuvwxyE");
    let way = find_solution(height_map, Some(start), goal);
    assert_eq!(way.len(), 25);
    assert_eq!(way[0], Coords { x: 1, y: 0 });
    let (_, goal, height_map) = parse_input("SbcdefghijklmnopqrstuvwxyE\naaaaaaaaaaaaaaaaaaaaaaaaya");
    let way = try_find_solution(height_map, None, goal).unwrap();
    assert_eq!(way.len(), 25);
    assert_eq!(way[24], goal);
    let (_, goal, height_map) = parse_input("Saaa\nabcE\nabyy\nabxx\na...\n");
    assert_eq!(
        try_find_solution(height_map, None, goal),
        Some(vec![])
    );
    let (start, goal, height_map) = parse_input("Sbz\nacE\naaa\n");
    assert_eq!(
        try_find_solution(height_map.clone(), Some(start), goal),
        Some(vec![])
    );
    let (_, goal, height_map) = parse_input(INPUT);
    let way = try_find_solution(height_map, None, goal).unwrap();
    assert_eq!(way.len(), 29);
    assert_eq!(way[0], Coords { x: 1, y: 4 });
    assert_eq!(way[1], Coords { x: 1, y: 3 });
    assert_eq!(way[28], goal);
    assert_eq!(try_puzzle_1(INPUT), Some("31".to_string()));
    assert_eq!(try_puzzle_2(INPUT), Some("29".to_string()));
    assert_eq!(try_puzzle_1("Sab\nabc\nacE\n"), Some("0".to_string()));
}

#[test]
fn ways_are_taken_up_by_length_then_by_square() {
    let way = |x: usize, y: usize, length: usize| TreeNode {
        position: Coords { x, y },
        path: vec![Coords { x: 0, y: 0 }; length],
        children: vec![],
    };
    assert_eq!(way(5, 5, 1).cmp(&way(0, 0, 2)), Ordering::Less);
    assert_eq!(way(0, 0, 2).cmp(&way(5, 5, 1)), Ordering::Greater);
    assert_eq!(way(1, 9, 2).cmp(&way(2, 0, 2)), Ordering::Less);
    assert_eq!(way(2, 1, 2).cmp(&way(2, 0, 2)), Ordering::Greater);
    assert_eq!(way(2, 1, 2).partial_cmp(&way(2, 1, 2)), Some(Ordering::Equal));
    assert!(way(2, 1, 2).eq(&way(7, 7, 2)));
    assert!(!way(2, 1, 2).eq(&way(2, 1, 3)));
}
