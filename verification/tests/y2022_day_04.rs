use advent_of_code::y2022::day_04::{
    parse_pair, puzzle_1, puzzle_2, try_parse_pair, try_puzzle_1, try_puzzle_2, Job,
};

const INPUT: &str = "2-4,6-8
2-3,4-5
5-7,7-9
2-8,3-7
6-6,4-6
2-6,4-8";

#[test]
fn day_04_test_parse_jobs() {
    let job = "2-4";
    assert_eq!(Job::try_from(job).unwrap(), Job { start: 2, end: 4 });
}

#[test]
fn day_04_test_parse_pair() {
    let pair = "2-4,6-8";
    assert_eq!(
        parse_pair(pair),
        (Job { start: 2, end: 4 }, Job { start: 6, end: 8 })
    );
}

#[test]
fn day_04_test_puzzle_1() {
    assert_eq!(puzzle_1(INPUT), "2");
}

#[test]
fn day_04_test_puzzle_2() {
    assert_eq!(puzzle_2(INPUT), "4");
}

#[test]
fn job_rejects_what_is_no_range() {
    assert_eq!(Job::try_from("24"), Err(()));
    assert_eq!(Job::try_from("2-"), Err(()));
    assert_eq!(Job::try_from("-4"), Err(()));
    assert_eq!(Job::try_from("2-x"), Err(()));
    assert_eq!(Job::try_from("2-4-6"), Err(()));
    assert_eq!(Job::try_from("4294967296-1"), Err(()));
    assert_eq!(
        Job::try_from("+7-4294967295"),
        Ok(Job {
            start: 7,
            end: 4294967295
        })
    );
}

#[test]
fn job_includes_and_overlaps() {
    let wide = Job { start: 2, end: 8 };
    let inner = Job { start: 3, end: 7 };
    let aside = Job { start: 8, end: 9 };
    assert!(wide.includes(&inner));
    assert!(!inner.includes(&wide));
    assert!(wide.includes(&wide));
    assert!(wide.overlaps(&aside));
    assert!(!inner.overlaps(&aside));
    assert!(!inner.overlaps(&wide));
    assert!(wide.overlaps(&inner));
}

#[test]
fn pairs_are_rejected_without_a_comma() {
    assert_eq!(try_parse_pair("2-4 6-8"), None);
    assert_eq!(try_parse_pair("2-4,6"), None);
    assert_eq!(
        try_parse_pair("2-4,6-8"),
        Some((Job { start: 2, end: 4 }, Job { start: 6, end: 8 }))
    );
}

#[test]
fn answers_skip_empty_lines_and_reject_bad_ones() {
    assert_eq!(try_puzzle_1("\n2-8,3-7\n\n6-6,4-6\n"), Some("2".to_string()));
    assert_eq!(try_puzzle_2(""), Some("0".to_string()));
    assert_eq!(try_puzzle_1("2-8,3-7\nnothing\n"), None);
    assert_eq!(try_puzzle_2("2-8,3-7\r\n"), None);
}

#[test]
fn test_parse_jobs() {
    let job = "2-4";
    assert_eq!(Job::try_from(job).unwrap(), Job { start: 2, end: 4 });
}

#[test]
fn test_parse_pair() {
    let pair = "2-4,6-8";
    assert_eq!(
        parse_pair(pair),
        (Job { start: 2, end: 4 }, Job { start: 6, end: 8 })
    );
}
