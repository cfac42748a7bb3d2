//! Numbers written in text: reading digits and writing decimal numerals.

use crate::text::{chars, views};
use vstd::prelude::*;

verus! {

/// Whether `c` is a digit of the given radix (at most ten).
pub open spec fn is_digit(c: char, radix: int) -> bool {
    '0' <= c && (c as int) < ('0' as int) + radix
}

/// The value of the digit `c`.
pub open spec fn digit(c: char) -> int {
    c as int - '0' as int
}

/// Whether `s` holds digits of the given radix only.
pub open spec fn digits(s: Seq<char>, radix: int) -> bool {
    forall|i: int| 0 <= i < s.len() ==> is_digit(#[trigger] s[i], radix)
}

/// The number that the digits `s` write in the given radix; 0 for no digits.
pub open spec fn value(s: Seq<char>, radix: int) -> int
    decreases s.len(),
{
    if s.len() == 0 {
        0
    } else {
        value(s.drop_last(), radix) * radix + digit(s.last())
    }
}

/// The value of a digit string is not negative.
pub proof fn lemma_value_nonnegative(s: Seq<char>, radix: int)
    requires
        2 <= radix <= 10,
        digits(s, radix),
    ensures
        0 <= value(s, radix),
    decreases s.len(),
{
    if s.len() > 0 {
        lemma_value_nonnegative(s.drop_last(), radix);
        assert(is_digit(s[s.len() - 1], radix));
        assert(0 <= value(s.drop_last(), radix) * radix) by (nonlinear_arith)
            requires
                0 <= value(s.drop_last(), radix),
                2 <= radix,
        ;
    }
}

/// A digit string writes at least what any of its prefixes writes.
pub proof fn lemma_value_monotone(s: Seq<char>, radix: int, k: int)
    requires
        2 <= radix <= 10,
        digits(s, radix),
        0 <= k <= s.len(),
    ensures
        0 <= value(s.take(k), radix) <= value(s, radix),
    decreases s.len(),
{
    lemma_value_nonnegative(s.take(k), radix);
    if k == s.len() {
        assert(s.take(k) =~= s);
    } else {
        lemma_value_monotone(s.drop_last(), radix, k);
        assert(s.drop_last().take(k) =~= s.take(k));
        assert(is_digit(s[s.len() - 1], radix));
        assert(value(s.drop_last(), radix) * radix >= value(s.drop_last(), radix))
            by (nonlinear_arith)
            requires
                0 <= value(s.drop_last(), radix),
                2 <= radix,
        ;
    }
}

/// What the digits `s` write, where they are digits and write at most `max`.
pub open spec fn bounded(s: Seq<char>, radix: int, max: int) -> Option<int> {
    if digits(s, radix) && value(s, radix) <= max {
        Some(value(s, radix))
    } else {
        None
    }
}

/// Tells whether `c` is a digit of the given radix.
pub fn digit_in(c: char, radix: u64) -> (r: bool)
    requires
        2 <= radix <= 10,
    ensures
        r == is_digit(c, radix as int),
{
    '0' <= c && (c as u32 as u64) < ('0' as u32 as u64) + radix
}

/// The value of the decimal digit `c`.
pub fn digit_of(c: char) -> (d: u64)
    requires
        is_digit(c, 10),
    ensures
        d == digit(c),
{
    (c as u32 - '0' as u32) as u64
}

/// Reads the digits `v[from..to]`.
pub fn read_digits(v: &Vec<char>, from: usize, to: usize, radix: u64, max: u64) -> (r: Option<u64>)
    requires
        from <= to <= v.len(),
        2 <= radix <= 10,
    ensures
        r is Some == bounded(v@.subrange(from as int, to as int), radix as int, max as int) is Some,
        r is Some ==> r->0 == bounded(
            v@.subrange(from as int, to as int),
            radix as int,
            max as int,
        )->0,
{
    let ghost all = v@.subrange(from as int, to as int);
    let mut acc: u64 = 0;
    let mut i: usize = from;
    assert(v@.subrange(from as int, from as int) =~= Seq::<char>::empty());
    while i < to
        invariant
            from <= i <= to <= v.len(),
            2 <= radix <= 10,
            all == v@.subrange(from as int, to as int),
            digits(v@.subrange(from as int, i as int), radix as int),
            acc == value(v@.subrange(from as int, i as int), radix as int),
            acc <= max,
        decreases to - i,
    {
        let c = v[i];
        let ghost next = v@.subrange(from as int, i + 1);
        assert(next.drop_last() =~= v@.subrange(from as int, i as int));
        assert(next =~= all.take(i + 1 - from));
        if !digit_in(c, radix) {
            assert(all[i - from] == c);
            return None;
        }
        assert(digits(next, radix as int)) by {
            assert forall|j: int| 0 <= j < next.len() implies is_digit(
                #[trigger] next[j],
                radix as int,
            ) by {
                if j < next.len() - 1 {
                    assert(next[j] == next.drop_last()[j]);
                }
            }
        }
        let d: u64 = digit_of(c);
        let grown = match acc.checked_mul(radix) {
            Some(m) => m.checked_add(d),
            None => None,
        };
        match grown {
            Some(g) if g <= max => {
                acc = g;
            },
            _ => {
                proof {
                    if digits(all, radix as int) {
                        lemma_value_monotone(all, radix as int, i + 1 - from);
                    }
                }
                return None;
            },
        }
        i += 1;
    }
    Some(acc)
}

/// The digits of `s` after a leading `+`, if there is one.
pub open spec fn after_plus(s: Seq<char>) -> Seq<char> {
    if s.len() > 0 && s[0] == '+' {
        s.skip(1)
    } else {
        s
    }
}

/// The number that `s` writes without a sign or after `+`, in the given radix, if it is at most
/// `max`. At least one digit is needed; no other character is accepted.
pub open spec fn unsigned(s: Seq<char>, radix: int, max: int) -> Option<int> {
    let d = after_plus(s);
    if d.len() > 0 {
        bounded(d, radix, max)
    } else {
        None
    }
}

/// The number that `s` writes in decimal digits after an optional `+` or `-`, if it lies
/// between `-max - 1` and `max`.
pub open spec fn signed(s: Seq<char>, max: int) -> Option<int> {
    if s.len() > 0 && s[0] == '-' {
        match bounded(s.skip(1), 10, max + 1) {
            Some(n) if s.len() > 1 => Some(-n),
            _ => None,
        }
    } else {
        unsigned(s, 10, max)
    }
}

/// Reads an unsigned number that takes up all of `s`.
pub fn parse_unsigned(s: &str, radix: u64, max: u64) -> (r: Option<u64>)
    requires
        2 <= radix <= 10,
    ensures
        r is Some == unsigned(s@, radix as int, max as int) is Some,
        r is Some ==> r->0 == unsigned(s@, radix as int, max as int)->0,
{
    let v = chars(s);
    let from: usize = if v.len() > 0 && v[0] == '+' {
        1
    } else {
        0
    };
    assert(v@.subrange(from as int, v.len() as int) =~= after_plus(s@));
    if from == v.len() {
        return None;
    }
    read_digits(&v, from, v.len(), radix, max)
}

/// The `u8` that `s` writes, as `str::parse` reads it.
pub open spec fn u8_of(s: Seq<char>) -> Option<u8> {
    match unsigned(s, 10, u8::MAX as int) {
        Some(n) => Some(n as u8),
        None => None,
    }
}

/// The `u32` that `s` writes, as `str::parse` reads it.
pub open spec fn u32_of(s: Seq<char>) -> Option<u32> {
    match unsigned(s, 10, u32::MAX as int) {
        Some(n) => Some(n as u32),
        None => None,
    }
}

/// The `u64` that `s` writes, as `str::parse` reads it.
pub open spec fn u64_of(s: Seq<char>) -> Option<u64> {
    match unsigned(s, 10, u64::MAX as int) {
        Some(n) => Some(n as u64),
        None => None,
    }
}

/// The `i32` that `s` writes, as `str::parse` reads it.
pub open spec fn i32_of(s: Seq<char>) -> Option<i32> {
    match signed(s, i32::MAX as int) {
        Some(n) => Some(n as i32),
        None => None,
    }
}

/// Reads a `u8` that takes up all of `s`.
pub fn parse_u8(s: &str) -> (r: Option<u8>)
    ensures
        r == u8_of(s@),
{
    match parse_unsigned(s, 10, u8::MAX as u64) {
        Some(n) => Some(n as u8),
        None => None,
    }
}

/// Reads a `u32` that takes up all of `s`.
pub fn parse_u32(s: &str) -> (r: Option<u32>)
    ensures
        r == u32_of(s@),
{
    match parse_unsigned(s, 10, u32::MAX as u64) {
        Some(n) => Some(n as u32),
        None => None,
    }
}

/// Reads a `u64` that takes up all of `s`.
pub fn parse_u64(s: &str) -> (r: Option<u64>)
    ensures
        r == u64_of(s@),
{
    parse_unsigned(s, 10, u64::MAX)
}

/// Reads an `i32` that takes up all of `s`.
pub fn parse_i32(s: &str) -> (r: Option<i32>)
    ensures
        r == i32_of(s@),
{
    let v = chars(s);
    if v.len() > 0 && v[0] == '-' {
        assert(v@.subrange(1, v.len() as int) =~= s@.skip(1));
        match read_digits(&v, 1, v.len(), 10, i32::MAX as u64 + 1) {
            Some(n) if v.len() > 1 => Some((0 - n as i64) as i32),
            _ => None,
        }
    } else {
        match parse_unsigned(s, 10, i32::MAX as u64) {
            Some(n) => Some(n as i32),
            None => None,
        }
    }
}

/// The character that writes the digit `d`.
pub open spec fn digit_char(d: int) -> char {
    (d + '0' as int) as u8 as char
}

/// The decimal numeral of `n`, without leading zeros.
pub open spec fn decimal(n: int) -> Seq<char>
    decreases n,
{
    if n < 10 {
        seq![digit_char(n)]
    } else {
        decimal(n / 10).push(digit_char(n % 10))
    }
}

/// The decimal numeral of `n`, with `-` in front of a negative number.
pub open spec fn signed_decimal(n: int) -> Seq<char> {
    if n < 0 {
        seq!['-'] + decimal(-n)
    } else {
        decimal(n)
    }
}

/// Appends the decimal numeral of `n` to `s`.
pub fn push_decimal(s: &mut String, n: u64)
    ensures
        final(s)@ == old(s)@ + decimal(n as int),
    decreases n,
{
    if n >= 10 {
        push_decimal(s, n / 10);
    }
    let d: u8 = (n % 10) as u8 + 48;
    s.push(d as char);
    assert(s@ =~= old(s)@ + decimal(n as int));
}

/// The decimal numeral of `n` as a string, as `to_string` writes it.
pub fn format_u64(n: u64) -> (s: String)
    ensures
        s@ == decimal(n as int),
{
    let mut s = String::new();
    push_decimal(&mut s, n);
    assert(s@ =~= decimal(n as int));
    s
}

/// The decimal numeral of `n` as a string, as `to_string` writes it.
pub fn format_i64(n: i64) -> (s: String)
    ensures
        s@ == signed_decimal(n as int),
{
    let mut s = String::new();
    if n < 0 {
        s.push('-');
        let m: u64 = (0 - (n + 1)) as u64 + 1;
        push_decimal(&mut s, m);
    } else {
        push_decimal(&mut s, n as u64);
    }
    assert(s@ =~= signed_decimal(n as int));
    s
}

/// The numbers that the first `n` of the `rows` write; `None` where one of them writes none.
pub open spec fn u32s(rows: Seq<Seq<char>>, n: int) -> Option<Seq<u32>>
    decreases n,
{
    if n <= 0 {
        Some(Seq::empty())
    } else {
        match (u32s(rows, n - 1), u32_of(rows[n - 1])) {
            (Some(read), Some(x)) => Some(read.push(x)),
            _ => None,
        }
    }
}

/// Once a row writes no number, no longer list of rows has its numbers.
pub proof fn lemma_u32s_fail(rows: Seq<Seq<char>>, n: int, m: int)
    requires
        n <= m,
        u32s(rows, n) is None,
    ensures
        u32s(rows, m) is None,
    decreases m,
{
    if n < m {
        lemma_u32s_fail(rows, n, m - 1);
    }
}

/// Reads a number from each of the rows; `None` where one of them writes none.
pub fn parse_u32s(rows: &Vec<&str>) -> (r: Option<Vec<u32>>)
    ensures
        r is Some == u32s(views(rows@), rows@.len() as int) is Some,
        r matches Some(v) ==> Some(v@) == u32s(views(rows@), rows@.len() as int),
{
    let mut out: Vec<u32> = Vec::new();
    let mut i: usize = 0;
    while i < rows.len()
        invariant
            0 <= i <= rows.len(),
            Some(out@) == u32s(views(rows@), i as int),
        decreases rows.len() - i,
    {
        assert(views(rows@)[i as int] == rows@[i as int]@);
        match parse_u32(rows[i]) {
            Some(x) => {
                out.push(x);
            },
            None => {
                proof {
                    lemma_u32s_fail(views(rows@), i + 1, rows@.len() as int);
                }
                return None;
            },
        }
        i += 1;
    }
    Some(out)
}

/// The small numbers that the first `n` of the `rows` write; `None` where one of them writes
/// none.
pub open spec fn u8s(rows: Seq<Seq<char>>, n: int) -> Option<Seq<u8>>
    decreases n,
{
    if n <= 0 {
        Some(Seq::empty())
    } else {
        match (u8s(rows, n - 1), u8_of(rows[n - 1])) {
            (Some(read), Some(x)) => Some(read.push(x)),
            _ => None,
        }
    }
}

/// What has been read is as long as the list of rows, and once a row writes no number, no
/// longer list of rows has its numbers.
pub proof fn lemma_u8s(rows: Seq<Seq<char>>, n: int, m: int)
    requires
        0 <= n <= m,
    ensures
        u8s(rows, n) is Some ==> u8s(rows, n)->0.len() == n,
        u8s(rows, n) is None ==> u8s(rows, m) is None,
    decreases m,
{
    if m > 0 {
        if n < m {
            lemma_u8s(rows, n, m - 1);
        } else {
            lemma_u8s(rows, n - 1, m - 1);
        }
    }
}

/// Reads a small number from each of the rows; `None` where one of them writes none.
pub fn parse_u8s(rows: &Vec<&str>) -> (r: Option<Vec<u8>>)
    ensures
        r is Some == u8s(views(rows@), rows@.len() as int) is Some,
        r matches Some(v) ==> Some(v@) == u8s(views(rows@), rows@.len() as int) && v@.len()
            == rows@.len(),
{
    let mut out: Vec<u8> = Vec::new();
    let mut i: usize = 0;
    while i < rows.len()
        invariant
            0 <= i <= rows.len(),
            out@.len() == i,
            Some(out@) == u8s(views(rows@), i as int),
        decreases rows.len() - i,
    {
        assert(views(rows@)[i as int] == rows@[i as int]@);
        match parse_u8(rows[i]) {
            Some(x) => {
                out.push(x);
            },
            None => {
                proof {
                    lemma_u8s(views(rows@), i + 1, rows@.len() as int);
                }
                return None;
            },
        }
        i += 1;
    }
    Some(out)
}

} // verus!
