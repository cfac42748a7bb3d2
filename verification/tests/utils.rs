use advent_of_code::utils::{input_path, plain_input_path, runs_puzzle, selected_days, InputKind};

#[test]
fn utils_input_paths() {
    assert_eq!(input_path(InputKind::Test, 22, 3), "../data/tests/2022/03.txt");
    assert_eq!(input_path(InputKind::Run, 22, 17), "../data/inputs/2022/17.txt");
    assert_eq!(input_path(InputKind::Run, 21, 1), "../data/inputs/2021/01.txt");
    assert_eq!(input_path(InputKind::Test, 5, 0), "../data/tests/205/00.txt");
    assert_eq!(input_path(InputKind::Test, 255, 255), "../data/tests/20255/255.txt");
    assert_eq!(input_path(InputKind::Test, 0, 9), "../data/tests/200/09.txt");
    assert_eq!(input_path(InputKind::Test, 0, 10), "../data/tests/200/10.txt");
}

#[test]
fn utils_plain_input_paths() {
    assert_eq!(plain_input_path(1), "./data/inputs/input01.txt");
    assert_eq!(plain_input_path(13), "./data/inputs/input13.txt");
    assert_eq!(plain_input_path(100), "./data/inputs/input100.txt");
}

#[test]
fn utils_selected_days() {
    assert_eq!(selected_days(17, None), Some((0, 17)));
    assert_eq!(selected_days(17, Some(1)), Some((0, 1)));
    assert_eq!(selected_days(17, Some(17)), Some((16, 17)));
    assert_eq!(selected_days(17, Some(18)), None);
    assert_eq!(selected_days(17, Some(0)), None);
    assert_eq!(selected_days(0, None), Some((0, 0)));
    assert_eq!(selected_days(0, Some(1)), None);
}

#[test]
fn utils_runs_puzzle() {
    assert!(runs_puzzle(None, 1));
    assert!(runs_puzzle(None, 2));
    assert!(runs_puzzle(Some(1), 1));
    assert!(!runs_puzzle(Some(1), 2));
    assert!(runs_puzzle(Some(2), 2));
    assert!(!runs_puzzle(Some(3), 1));
    assert!(!runs_puzzle(Some(3), 2));
}
