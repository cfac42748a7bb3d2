use advent_of_code::y2022::day_15::{
    get_first_empty_position, get_footprint, get_row, is_gentle, parse_input, place,
    row_is_drawable, scan_row, sort_by_start, try_count_row, try_get_first_empty_position,
    try_get_spans,
    try_parse_input, try_puzzle_1, try_puzzle_2, try_tuning, Coord, MapState, Sensor,
};

const INPUT: &str = "Sensor at x=2, y=18: closest beacon is at x=-2, y=15
Sensor at x=9, y=16: closest beacon is at x=10, y=16
Sensor at x=13, y=2: closest beacon is at x=15, y=3
Sensor at x=12, y=14: closest beacon is at x=10, y=16
Sensor at x=10, y=20: closest beacon is at x=10, y=16
Sensor at x=14, y=17: closest beacon is at x=10, y=16
Sensor at x=8, y=7: closest beacon is at x=2, y=10
Sensor at x=2, y=0: closest beacon is at x=2, y=10
Sensor at x=0, y=11: closest beacon is at x=2, y=10
Sensor at x=20, y=14: closest beacon is at x=25, y=17
Sensor at x=17, y=20: closest beacon is at x=21, y=22
Sensor at x=16, y=7: closest beacon is at x=15, y=3
Sensor at x=14, y=3: closest beacon is at x=15, y=3
Sensor at x=20, y=1: closest beacon is at x=15, y=3
";

#[test]
fn day_15_test_puzzle_1() {
    let row_number = 10;

    let map = parse_input(INPUT);
    let footprint = get_footprint(&map);
    let result = get_row(row_number, &map, footprint)
        .iter()
        .filter(|&&state| state == MapState::Empty)
        .count();

    assert_eq!(result, 26);
}

#[test]
fn day_15_test_puzzle_2() {
    let max_coord = 20;

    let map = parse_input(INPUT);
    let first_empty_position = get_first_empty_position(max_coord, &map).unwrap();

    let value = first_empty_position.x as i64 * 4_000_000i64 + first_empty_position.y as i64;

    assert_eq!(value, 56000011);
}

#[test]
fn sensors_are_kept_by_their_places() {
    let map = parse_input(INPUT);
    assert_eq!(map.len(), 14);
    assert_eq!(map[0].0, Coord { x: 0, y: 11 });
    assert_eq!(map[1].0, Coord { x: 2, y: 0 });
    assert_eq!(map[2].0, Coord { x: 2, y: 18 });
    assert_eq!(map[2].1.closest_beacon, Coord { x: -2, y: 15 });
    assert_eq!(map[2].1.distance, 7);
    assert_eq!(map[13].0, Coord { x: 20, y: 14 });
    assert_eq!(map[13].1.distance, 8);
    assert_eq!(get_footprint(&map), ((-8, 28), (-10, 26)));
    assert_eq!(get_footprint(&Vec::new()), ((0, 0), (0, 0)));
    assert_eq!(
        Coord { x: -3, y: 4 }.manhattan_distance(&Coord { x: 2, y: -6 }),
        15
    );
    assert!(Coord { x: 1, y: 9 }.precedes(&Coord { x: 2, y: 0 }));
    assert!(Coord { x: 1, y: 0 }.precedes(&Coord { x: 1, y: 1 }));
    assert!(!Coord { x: 1, y: 1 }.precedes(&Coord { x: 1, y: 1 }));
}

#[test]
fn a_later_line_replaces_the_sensor_of_its_place() {
    let map = parse_input(
        "Sensor at x=5, y=5: closest beacon is at x=5, y=6\r\nSensor at x=+1, y=-1: closest beacon is at x=1, y=1\nSensor at x=5, y=5: closest beacon is at x=9, y=5\n\nSensor at x=0, y=0: closest beacon is at x=0, y=0",
    );
    assert_eq!(map.len(), 2);
    assert_eq!(map[0].0, Coord { x: 1, y: -1 });
    assert_eq!(map[1].0, Coord { x: 5, y: 5 });
    assert_eq!(map[1].1.closest_beacon, Coord { x: 9, y: 5 });
    assert_eq!(map[1].1.distance, 4);
    let mut map = map;
    let sensor = Sensor {
        closest_beacon: Coord { x: 3, y: 3 },
        distance: 0,
    };
    place(&mut map, Coord { x: 3, y: 3 }, sensor);
    place(&mut map, Coord { x: 9, y: 3 }, sensor);
    place(&mut map, Coord { x: 1, y: -2 }, sensor);
    let places: Vec<(i32, i32)> = map.iter().map(|e| (e.0.x, e.0.y)).collect();
    assert_eq!(places, vec![(1, -2), (1, -1), (3, 3), (5, 5), (9, 3)]);
}

#[test]
fn input_that_writes_no_map() {
    assert!(try_parse_input("").is_none());
    assert!(try_parse_input("\nSensor at x=5, y=5: closest beacon is at x=5, y=6").is_none());
    assert!(try_parse_input("Sensor at x=5, y=5: closest beacon is at x=5, y=").is_none());
    assert!(try_parse_input("Sensor at x=5,y=5: closest beacon is at x=5, y=6").is_none());
    assert!(try_parse_input("Sensor at x=2147483648, y=5: closest beacon is at x=5, y=6").is_none());
    assert!(
        try_parse_input("Sensor at x=-2147483648, y=5: closest beacon is at x=5, y=6").is_none()
    );
    let map =
        try_parse_input("Sensor at x=-2147483648, y=5: closest beacon is at x=-5, y=6x").unwrap();
    assert_eq!(map[0].1.distance, 2147483644);
    assert!(!is_gentle(&map));
    assert_eq!(
        try_puzzle_1("Sensor at x=-2147483648, y=5: closest beacon is at x=-5, y=6"),
        None
    );
    assert_eq!(try_puzzle_1("nothing"), None);
    assert_eq!(try_puzzle_2("nothing"), None);
}

#[test]
fn rows_are_drawn_sensor_by_sensor() {
    let map = parse_input(INPUT);
    let footprint = get_footprint(&map);
    assert!(row_is_drawable(10, &map, footprint));
    let row = get_row(10, &map, footprint);
    assert_eq!(row.len(), 37);
    assert_eq!(row[0], MapState::Unknown);
    assert_eq!(row[5], MapState::Unknown);
    assert_eq!(row[6], MapState::Empty);
    assert_eq!(row[10], MapState::Beacon);
    assert_eq!(row[32], MapState::Empty);
    assert_eq!(row[33], MapState::Unknown);
    let row = get_row(11, &map, footprint);
    assert_eq!(row[8], MapState::Sensor);
    assert_eq!(row[22], MapState::Unknown);
    assert!(!row_is_drawable(10, &map, ((0, 28), (-10, 26))));
    assert!(!row_is_drawable(10, &map, ((2, 1), (0, 0))));
    assert_eq!(try_count_row(INPUT, 10), Some(26));
    assert_eq!(try_count_row(INPUT, 9), Some(25));
    assert_eq!(try_count_row(INPUT, 11), Some(27));
    assert_eq!(try_puzzle_1(INPUT), Some("0".to_string()));
}

#[test]
fn rows_are_scanned_for_a_free_place() {
    assert_eq!(scan_row(&vec![(0, 3), (2, 5), (7, 9)], 20), Some(6));
    assert_eq!(scan_row(&vec![(0, 3), (4, 5), (6, 9)], 20), None);
    assert_eq!(scan_row(&vec![(1, 3)], 20), Some(0));
    assert_eq!(scan_row(&vec![(0, 3), (2, 21), (7, 9)], 20), None);
    assert_eq!(scan_row(&vec![(0, 3), (9, 4), (7, 9)], 20), Some(4));
    assert_eq!(scan_row(&vec![], 20), None);
    let map = parse_input(INPUT);
    let spans = try_get_spans(&map, 11).unwrap();
    assert_eq!(spans[0], (0, 3));
    assert_eq!(spans[1], (3, 1));
    assert_eq!(spans[13], (15, 25));
    assert_eq!(try_get_first_empty_position(20, &map), Some(Some(Coord { x: 14, y: 11 })));
    assert_eq!(try_get_first_empty_position(-1, &map), Some(None));
    assert_eq!(try_tuning(INPUT, 20), Some(56000011));
    let far = vec![(
        Coord {
            x: 0,
            y: -2147483648,
        },
        Sensor {
            closest_beacon: Coord { x: 0, y: 0 },
            distance: 5,
        },
    )];
    assert_eq!(try_get_first_empty_position(20, &far), None);
    assert!(try_get_spans(&far, 0).is_none());
}

#[test]
fn stretches_with_the_same_start_keep_their_order() {
    let sensor = |x: i32, y: i32, distance: i32| {
        (
            Coord { x, y },
            Sensor {
                closest_beacon: Coord { x, y },
                distance,
            },
        )
    };
    let map = vec![sensor(3, 0, 1), sensor(32, 0, 30)];
    assert_eq!(
        try_get_spans(&map, 0),
        Some(vec![(2, 4), (2, 62)])
    );
    assert_eq!(
        try_get_first_empty_position(10, &map),
        Some(Some(Coord { x: 0, y: 0 }))
    );
    let map = vec![sensor(-30, 0, 60), sensor(-3, 1, 4)];
    assert_eq!(try_get_first_empty_position(3, &map), Some(None));
}

#[test]
fn the_place_found_is_ruled_out_by_no_sensor() {
    let map = parse_input(INPUT);
    let found = get_first_empty_position(20, &map).unwrap();
    assert_eq!(found, Coord { x: 14, y: 11 });
    for (position, sensor) in map.iter() {
        assert!(position.manhattan_distance(&found) > sensor.distance);
    }
    let one = vec![(
        Coord { x: 0, y: 0 },
        Sensor {
            closest_beacon: Coord { x: 1, y: 0 },
            distance: 1,
        },
    )];
    let found = try_get_first_empty_position(3, &one).unwrap().unwrap();
    assert_eq!(found, Coord { x: 0, y: 2 });
    assert!(one[0].0.manhattan_distance(&found) > one[0].1.distance);
}

#[test]
fn stretches_are_sorted_by_their_starts_and_keep_their_order() {
    assert_eq!(
        sort_by_start(vec![(5, 100), (2, 9), (5, 6), (0, 1), (2, 3)]),
        vec![(0, 1), (2, 9), (2, 3), (5, 100), (5, 6)]
    );
    assert_eq!(sort_by_start(vec![]), vec![]);
    assert_eq!(scan_row(&sort_by_start(vec![(5, 100), (5, 6)]), 10), None);
    assert_eq!(scan_row(&sort_by_start(vec![(5, 6), (5, 100)]), 10), Some(0));
}
