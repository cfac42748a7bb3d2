use advent_of_code::scan::{gap, line_ending, read_integer, read_natural, tag};
use nom::bytes::complete::tag as nom_tag;
use nom::character::complete::{i32 as nom_i32, line_ending as nom_line_ending, multispace1, u32 as nom_u32};
use nom::error::Error;

const TEXTS: [&str; 16] = [
    "",
    "0",
    "17",
    "17abc",
    "abc17",
    "+17",
    "-17",
    "-",
    "- 17",
    "007x",
    "4294967295 ",
    "4294967296",
    "2147483647,",
    "2147483648",
    "-2147483648\n",
    "-2147483649",
];

fn position(text: &str, rest: &str) -> usize {
    text.chars().count() - rest.chars().count()
}

#[test]
fn scan_naturals_are_read_as_the_parser_crate_reads_them() {
    for text in TEXTS {
        let v: Vec<char> = text.chars().collect();
        let expected = nom_u32::<&str, Error<&str>>(text)
            .ok()
            .map(|(rest, n)| (n as u64, position(text, rest)));
        assert_eq!(read_natural(&v, 0, u32::MAX as u64), expected, "{}", text);
    }
}

#[test]
fn scan_integers_are_read_as_the_parser_crate_reads_them() {
    for text in TEXTS {
        let v: Vec<char> = text.chars().collect();
        let expected = nom_i32::<&str, Error<&str>>(text)
            .ok()
            .map(|(rest, n)| (n as i64, position(text, rest)));
        assert_eq!(read_integer(&v, 0, i32::MAX as u64), expected, "{}", text);
    }
}

#[test]
fn scan_line_ends_gaps_and_tags_are_read_as_the_parser_crate_reads_them() {
    for text in ["", "\n", "\r\n", "\r", "\n\n", "a\n", " \n", "\r\r\n", " \t\r\n x", "x ", "\t"] {
        let v: Vec<char> = text.chars().collect();
        let expected = nom_line_ending::<&str, Error<&str>>(text)
            .ok()
            .map(|(rest, _)| position(text, rest));
        assert_eq!(line_ending(&v, 0), expected, "{:?}", text);
        let expected = multispace1::<&str, Error<&str>>(text)
            .ok()
            .map(|(rest, _)| position(text, rest));
        assert_eq!(gap(&v, 0), expected, "{:?}", text);
    }
    for text in ["", "addx", "addx 3", "add", "xaddx", "ADDX", "addxaddx"] {
        let v: Vec<char> = text.chars().collect();
        let expected = nom_tag::<&str, &str, Error<&str>>("addx")(text)
            .ok()
            .map(|(rest, _)| position(text, rest));
        assert_eq!(tag(&v, 0, "addx"), expected, "{:?}", text);
    }
}
