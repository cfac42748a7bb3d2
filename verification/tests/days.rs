use advent_of_code::days::{get_days, list_days, try_get_days, Day};
use advent_of_code::{y2021, y2022};

#[test]
fn days_of_each_year() {
    let days = get_days(2022);
    assert_eq!(days.len(), 17);
    assert_eq!(days[0], Day { year: 2022, day: 1 });
    assert_eq!(days[16], Day { year: 2022, day: 17 });
    assert_eq!(days, y2022::get_days());
    let days = get_days(2021);
    assert_eq!(days.len(), 4);
    assert_eq!(days[3], Day { year: 2021, day: 4 });
    assert_eq!(days, y2021::get_days());
    assert_eq!(try_get_days(2020), None);
    assert_eq!(try_get_days(2023), None);
    assert_eq!(try_get_days(22), None);
}

#[test]
fn days_listed_from_one() {
    assert_eq!(list_days(2000, 0), vec![]);
    assert_eq!(
        list_days(1999, 3),
        vec![
            Day { year: 1999, day: 1 },
            Day { year: 1999, day: 2 },
            Day { year: 1999, day: 3 }
        ]
    );
    assert_eq!(list_days(1, 255).len(), 255);
    assert_eq!(list_days(1, 255)[254].day, 255);
}

#[test]
fn days_lead_to_their_solvers() {
    let day = Day { year: 2022, day: 4 };
    assert_eq!(day.puzzle_1("2-4,6-8\n2-8,3-7\n"), Some(String::from("1")));
    assert_eq!(day.puzzle_2("2-4,6-8\n2-8,3-7\n5-7,7-9"), Some(String::from("2")));
    assert_eq!(day.puzzle(1, "2-4,6-8\n2-8,3-7\n"), Some(String::from("1")));
    assert_eq!(day.puzzle(2, "2-4,6-8\n2-8,3-7\n"), Some(String::from("1")));
    assert_eq!(day.puzzle(3, "2-4,6-8\n2-8,3-7\n"), None);
    assert_eq!(day.puzzle(0, "2-4,6-8\n2-8,3-7\n"), None);
    assert_eq!(day.puzzle_1("2-4"), None);
    let day = Day { year: 2022, day: 6 };
    assert_eq!(day.puzzle_1("mjqjpqmgbljsphdztnvjfqwrcgsmlb"), Some(String::from("7")));
    assert_eq!(day.puzzle_2("mjqjpqmgbljsphdztnvjfqwrcgsmlb"), Some(String::from("19")));
    let day = Day { year: 2021, day: 1 };
    assert_eq!(day.puzzle_1("1\n2\n3\n"), Some(String::from("2")));
    assert_eq!(day.puzzle_2("1\n2\n3\n4\n"), Some(String::from("1")));
    let day = Day { year: 2021, day: 2 };
    assert_eq!(day.puzzle_1("forward 2\ndown 3"), Some(String::from("6")));
}

#[test]
fn days_that_give_numbers_give_their_numerals() {
    let day = Day { year: 2022, day: 1 };
    assert_eq!(day.puzzle_1("1000\n2000\n\n4000\n"), Some(String::from("4000")));
    assert_eq!(day.puzzle_2("1\n\n2\n\n3\n\n4"), Some(String::from("9")));
    assert_eq!(day.puzzle_2("1\n\n2"), None);
    let day = Day { year: 2022, day: 2 };
    assert_eq!(day.puzzle_1("A Y\nB X\nC Z\n"), Some(String::from("15")));
    assert_eq!(day.puzzle_2("A Y\nB X\nC Z\n"), Some(String::from("12")));
}

#[test]
fn days_without_a_solver() {
    assert_eq!(Day { year: 2022, day: 18 }.puzzle_1("x"), None);
    assert_eq!(Day { year: 2022, day: 0 }.puzzle_2("x"), None);
    assert_eq!(Day { year: 2021, day: 5 }.puzzle_1("1\n2"), None);
    assert_eq!(Day { year: 2020, day: 1 }.puzzle_1("1\n2"), None);
}
