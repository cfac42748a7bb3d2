use advent_of_code::y2022::day_08::{
    get_visibility_length, get_visibility_scores, get_visible_trees, is_tree_visible,
    is_visible_from_side, load_input, puzzle_1, puzzle_2, read_grid, try_puzzle_1, try_puzzle_2,
    Pos, Side,
};

const INPUT: &str = "30373
25512
65332
33549
35390";

#[test]
fn day_08_test_load_input() {
    let input = "12\n34\n";
    let ouput = load_input(input);
    assert_eq!(ouput, Ok(vec![vec![1, 2], vec![3, 4]]));
}

#[test]
fn day_08_test_is_tree_visible() {
    let forest = load_input(INPUT).unwrap();

    assert!(is_tree_visible(&forest, Pos { lin: 0, col: 0 }));
    assert!(is_tree_visible(&forest, Pos { lin: 1, col: 1 }));
    assert!(!is_tree_visible(&forest, Pos { lin: 1, col: 3 }));
    assert!(!is_tree_visible(&forest, Pos { lin: 2, col: 2 }));
}

#[test]
fn day_08_test_get_visible_trees() {
    let input = "123\n416\n123\n";
    let forest = load_input(input).unwrap();

    let visible_trees = get_visible_trees(&forest);
    assert_eq!(
        visible_trees,
        vec![
            vec![true, true, true],
            vec![true, false, true],
            vec![true, true, true]
        ]
    );
}

#[test]
fn day_08_test_puzzle_1() {
    assert_eq!(puzzle_1(INPUT), "21");
}

#[test]
fn day_08_test_puzzle_2() {
    assert_eq!(puzzle_2(INPUT), "8");
}

#[test]
fn grids_that_are_not_square_are_refused() {
    assert_eq!(load_input("123\n456\n"), Err(()));
    assert_eq!(load_input("12\n3\n"), Err(()));
    assert_eq!(load_input(""), Ok(vec![]));
    assert_eq!(load_input("\n7\n\n"), Ok(vec![vec![7]]));
    assert_eq!(read_grid("12\n3x\n"), None);
    assert_eq!(read_grid("12\n3\n"), Some(vec![vec![1, 2], vec![3]]));
    assert_eq!(try_puzzle_1("123\n456\n"), None);
    assert_eq!(try_puzzle_1(""), None);
    assert_eq!(try_puzzle_2("1a\n22\n"), None);
    assert_eq!(try_puzzle_1(INPUT), Some("21".to_string()));
    assert_eq!(try_puzzle_2(INPUT), Some("8".to_string()));
    assert_eq!(try_puzzle_2("5"), Some("0".to_string()));
}

#[test]
fn sides_from_which_a_tree_is_seen() {
    let forest = load_input(INPUT).unwrap();
    let tree = Pos { lin: 1, col: 1 };
    assert!(is_visible_from_side(&forest, Side::North, tree));
    assert!(is_visible_from_side(&forest, Side::West, tree));
    assert!(!is_visible_from_side(&forest, Side::South, tree));
    assert!(!is_visible_from_side(&forest, Side::East, tree));
    let edge = Pos { lin: 4, col: 2 };
    assert!(is_visible_from_side(&forest, Side::South, edge));
    assert!(!is_visible_from_side(&forest, Side::North, edge));
}

#[test]
fn viewing_distances_and_scores() {
    let forest = load_input(INPUT).unwrap();
    let tree = Pos { lin: 1, col: 2 };
    assert_eq!(get_visibility_length(&forest, Side::North, tree), 1);
    assert_eq!(get_visibility_length(&forest, Side::West, tree), 1);
    assert_eq!(get_visibility_length(&forest, Side::East, tree), 2);
    assert_eq!(get_visibility_length(&forest, Side::South, tree), 2);
    let tree = Pos { lin: 3, col: 2 };
    assert_eq!(get_visibility_length(&forest, Side::North, tree), 2);
    assert_eq!(get_visibility_length(&forest, Side::West, tree), 2);
    assert_eq!(get_visibility_length(&forest, Side::South, tree), 1);
    assert_eq!(get_visibility_length(&forest, Side::East, tree), 2);
    assert_eq!(get_visibility_length(&forest, Side::North, Pos { lin: 0, col: 3 }), 0);
    let scores = get_visibility_scores(&forest);
    assert_eq!(scores[1][2], 4);
    assert_eq!(scores[3][2], 8);
    assert_eq!(scores[0], vec![0, 0, 0, 0, 0]);
    assert_eq!(scores[2], vec![0, 6, 1, 2, 0]);
}

#[test]
fn test_load_input() {
    let input = "12\n34\n";
    let ouput = load_input(input);
    assert_eq!(ouput, Ok(vec![vec![1, 2], vec![3, 4]]));
}

#[test]
fn test_get_visible_trees() {
    let input = "123\n416\n123\n";
    let forest = load_input(&input).unwrap();

    let visible_trees = get_visible_trees(&forest);
    assert_eq!(
        visible_trees,
        vec![
            vec![true, true, true],
            vec![true, false, true],
            vec![true, true, true]
        ]
    );
}
