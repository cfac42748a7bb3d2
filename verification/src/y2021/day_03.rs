//! Binary diagnostic: the bits that are most and least common among the numbers of a report.

use crate::number::{decimal, format_u64, parse_unsigned, unsigned};
use crate::text::{chars, rows, rows_of, views};
use itertools::Itertools;
use std::collections::HashMap;
use vstd::prelude::*;

verus! {

broadcast use vstd::std_specs::hash::group_hash_axioms;

/// Bit `k` of `n`, as nought or one.
pub open spec fn bit(n: u16, k: u16) -> u16 {
    (n & (1u16 << k)) >> k
}

/// Bit `k` of `n`.
pub fn bit_of(n: u16, k: u16) -> (r: u16)
    requires
        k < 16,
    ensures
        r == bit(n, k),
{
    (n & (1u16 << k)) >> k
}

/// Bit `k` of every number.
pub open spec fn column(bits: Seq<u16>, k: u16) -> Seq<u16> {
    bits.map_values(|n: u16| bit(n, k))
}

/// The bit that is most common at place `k`: nought where there are more noughts than ones,
/// else one. Where there is no one at all, it takes two noughts to make nought the most
/// common.
pub open spec fn most_common(bits: Seq<u16>, k: u16) -> u16 {
    let zeros = column(bits, k).to_multiset().count(0);
    let ones = column(bits, k).to_multiset().count(1);
    if zeros > (if ones == 0 {
        1
    } else {
        ones
    }) {
        0
    } else {
        1
    }
}

/// The other bit than the most common one.
pub open spec fn least_common(bits: Seq<u16>, k: u16) -> u16 {
    if most_common(bits, k) == 0 {
        1
    } else {
        0
    }
}

/// Whether bit `k` of the numbers can be looked at: a place beyond the sixteenth can only
/// where there are no numbers.
pub open spec fn in_reach(bits: Seq<u16>, k: u16) -> bool {
    k < 16 || bits.len() == 0
}

/// `Itertools::counts` on a list of numbers: a map that holds each number that occurs in the
/// list, with the number of times that it occurs.
#[verifier::external_body]
fn counted(values: &Vec<u16>) -> (m: HashMap<u16, usize>)
    ensures
        forall|x: u16| #[trigger] m@.contains_key(x) == values@.contains(x),
        forall|x: u16| #[trigger]
            m@.contains_key(x) ==> m@[x] == values@.to_multiset().count(x),
{
    values.iter().copied().counts()
}

/// Bit `k` of every number.
fn column_of(bits: &Vec<u16>, k: u16) -> (out: Vec<u16>)
    requires
        in_reach(bits@, k),
    ensures
        out@ == column(bits@, k),
{
    let mut out: Vec<u16> = Vec::new();
    let mut i: usize = 0;
    while i < bits.len()
        invariant
            0 <= i <= bits.len(),
            in_reach(bits@, k),
            out@ == column(bits@.take(i as int), k),
        decreases bits.len() - i,
    {
        assert(column(bits@.take(i + 1), k) =~= column(bits@.take(i as int), k).push(
            bit(bits@[i as int], k),
        ));
        out.push(bit_of(bits[i], k));
        i += 1;
    }
    assert(bits@.take(bits@.len() as int) =~= bits@);
    out
}

/// How often `x` occurs, as the map of counts tells it.
fn count_in(m: &HashMap<u16, usize>, x: u16, values: Ghost<Seq<u16>>) -> (r: Option<usize>)
    requires
        forall|y: u16| #[trigger] m@.contains_key(y) == values@.contains(y),
        forall|y: u16| #[trigger]
            m@.contains_key(y) ==> m@[y] == values@.to_multiset().count(y),
    ensures
        r is Some == (values@.to_multiset().count(x) > 0),
        r matches Some(n) ==> n == values@.to_multiset().count(x),
{
    proof {
        vstd::seq_lib::to_multiset_contains(values@, x);
    }
    match m.get(&x) {
        Some(n) => Some(*n),
        None => None,
    }
}

/// The bit that is most common at place `k`; `None` where the place cannot be looked at.
pub fn try_get_most_common_nth_bit(bits: &Vec<u16>, k: u16) -> (r: Option<u16>)
    ensures
        r is Some == in_reach(bits@, k),
        r matches Some(b) ==> b == most_common(bits@, k),
{
    if k >= 16 && bits.len() > 0 {
        return None;
    }
    let values = column_of(bits, k);
    let counts = counted(&values);
    let zeros: usize = match count_in(&counts, 0, Ghost(values@)) {
        Some(n) => n,
        None => 0,
    };
    let ones: usize = match count_in(&counts, 1, Ghost(values@)) {
        Some(n) => n,
        None => 1,
    };
    if zeros > ones {
        Some(0)
    } else {
        Some(1)
    }
}

/// The bit that is most common at place `k`.
pub fn get_most_common_nth_bit(bits: &Vec<u16>, k: u16) -> (r: u16)
    requires
        in_reach(bits@, k),
    ensures
        r == most_common(bits@, k),
{
    try_get_most_common_nth_bit(bits, k).unwrap()
}

/// The bit that is least common at place `k`.
pub fn get_least_common_nth_bit(bits: &Vec<u16>, k: u16) -> (r: u16)
    requires
        in_reach(bits@, k),
    ensures
        r == least_common(bits@, k),
{
    let m = get_most_common_nth_bit(bits, k);
    assert(0u16 ^ 1 == 1 && 1u16 ^ 1 == 0) by (bit_vector);
    m ^ 1
}

/// The bit at place `k` that is most common, or the one that is least common.
pub open spec fn common(bits: Seq<u16>, k: u16, most: bool) -> u16 {
    if most {
        most_common(bits, k)
    } else {
        least_common(bits, k)
    }
}

/// Picks the most or the least common bit.
fn common_of(bits: &Vec<u16>, k: u16, most: bool) -> (r: u16)
    requires
        in_reach(bits@, k),
    ensures
        r == common(bits@, k, most),
{
    if most {
        get_most_common_nth_bit(bits, k)
    } else {
        get_least_common_nth_bit(bits, k)
    }
}

/// The numbers whose bit `k` is `b`, in their order.
pub open spec fn kept(bits: Seq<u16>, k: u16, b: u16) -> Seq<u16> {
    bits.filter(|n: u16| bit(n, k) == b)
}

/// What is left of the numbers when those are kept whose bit `k` is the common one; a
/// single number always stays.
pub open spec fn filtered(bits: Seq<u16>, k: u16, most: bool) -> Seq<u16> {
    if bits.len() == 1 {
        bits
    } else {
        kept(bits, k, common(bits, k, most))
    }
}

/// Whether the numbers can be filtered on bit `k`: a place beyond the sixteenth can be
/// looked at only where there are no numbers, and need not be where there is one.
pub open spec fn filterable(bits: Seq<u16>, k: u16) -> bool {
    k < 16 || bits.len() <= 1
}

/// Keeps the numbers whose bit `k` is `b`.
fn keep(bits: &Vec<u16>, k: u16, b: u16) -> (out: Vec<u16>)
    requires
        in_reach(bits@, k),
    ensures
        out@ == kept(bits@, k, b),
{
    let mut out: Vec<u16> = Vec::new();
    let ghost choice = |n: u16| bit(n, k) == b;
    let mut i: usize = 0;
    assert(bits@.take(0) =~= Seq::<u16>::empty());
    while i < bits.len()
        invariant
            0 <= i <= bits.len(),
            in_reach(bits@, k),
            choice == (|n: u16| bit(n, k) == b),
            out@ == bits@.take(i as int).filter(choice),
        decreases bits.len() - i,
    {
        proof {
            assert(bits@.take(i + 1).drop_last() =~= bits@.take(i as int));
            assert(bits@.take(i + 1).last() == bits@[i as int]);
            reveal(Seq::filter);
        }
        if bit_of(bits[i], k) == b {
            out.push(bits[i]);
        }
        i += 1;
    }
    assert(bits@.take(bits@.len() as int) =~= bits@);
    out
}

/// Copies the numbers.
fn copy(bits: &Vec<u16>) -> (out: Vec<u16>)
    ensures
        out@ == bits@,
{
    let mut out: Vec<u16> = Vec::new();
    let mut i: usize = 0;
    while i < bits.len()
        invariant
            0 <= i <= bits.len(),
            out@ == bits@.take(i as int),
        decreases bits.len() - i,
    {
        assert(bits@.take(i + 1) =~= bits@.take(i as int).push(bits@[i as int]));
        out.push(bits[i]);
        i += 1;
    }
    assert(bits@.take(bits@.len() as int) =~= bits@);
    out
}

/// Keeps the numbers whose bit `k` is the common one; `None` where the place cannot be
/// looked at.
fn sift(bits: &Vec<u16>, k: u16, most: bool) -> (r: Option<Vec<u16>>)
    ensures
        r is Some == filterable(bits@, k),
        r matches Some(v) ==> v@ == filtered(bits@, k, most),
{
    if bits.len() == 1 {
        return Some(copy(bits));
    }
    if k >= 16 && bits.len() > 0 {
        return None;
    }
    let b = common_of(bits, k, most);
    Some(keep(bits, k, b))
}

/// Keeps the numbers whose bit `k` is the most common one; `None` where the place cannot be
/// looked at.
pub fn try_filter_on_most_common_nth_bit(bits: &Vec<u16>, k: u16) -> (r: Option<Vec<u16>>)
    ensures
        r is Some == filterable(bits@, k),
        r matches Some(v) ==> v@ == filtered(bits@, k, true),
{
    sift(bits, k, true)
}

/// Keeps the numbers whose bit `k` is the most common one.
pub fn filter_on_most_common_nth_bit(bits: &Vec<u16>, k: u16) -> (r: Vec<u16>)
    requires
        filterable(bits@, k),
    ensures
        r@ == filtered(bits@, k, true),
{
    sift(bits, k, true).unwrap()
}

/// Keeps the numbers whose bit `k` is the least common one; `None` where the place cannot
/// be looked at.
pub fn try_filter_on_least_common_nth_bit(bits: &Vec<u16>, k: u16) -> (r: Option<Vec<u16>>)
    ensures
        r is Some == filterable(bits@, k),
        r matches Some(v) ==> v@ == filtered(bits@, k, false),
{
    sift(bits, k, false)
}

/// Keeps the numbers whose bit `k` is the least common one.
pub fn filter_on_least_common_nth_bit(bits: &Vec<u16>, k: u16) -> (r: Vec<u16>)
    requires
        filterable(bits@, k),
    ensures
        r@ == filtered(bits@, k, false),
{
    sift(bits, k, false).unwrap()
}

/// The number that a row writes in binary digits.
pub open spec fn binary(row: Seq<char>) -> Option<u16> {
    match unsigned(row, 2, u16::MAX as int) {
        Some(n) => Some(n as u16),
        None => None,
    }
}

/// The numbers that the first `n` rows write; `None` where one of them writes none.
pub open spec fn numbers(lines: Seq<Seq<char>>, n: int) -> Option<Seq<u16>>
    decreases n,
{
    if n <= 0 {
        Some(Seq::empty())
    } else {
        match (numbers(lines, n - 1), binary(lines[n - 1])) {
            (Some(read), Some(x)) => Some(read.push(x)),
            _ => None,
        }
    }
}

/// Once a row writes no number, no longer list of rows has its numbers.
pub proof fn lemma_numbers_fail(lines: Seq<Seq<char>>, n: int, m: int)
    requires
        n <= m,
        numbers(lines, n) is None,
    ensures
        numbers(lines, m) is None,
    decreases m - n,
{
    if n < m {
        lemma_numbers_fail(lines, n, m - 1);
    }
}

/// The report that the input writes: the length of its first line that is not empty, as far
/// as sixteen bits hold it, and the number of every such line; `None` where there is no
/// line or a line writes no number.
pub open spec fn input_of(input: Seq<char>) -> Option<(u16, Seq<u16>)> {
    let lines = rows(input);
    if lines.len() == 0 {
        None
    } else {
        match numbers(lines, lines.len() as int) {
            Some(bits) => Some(((lines[0].len() % 0x10000) as u16, bits)),
            None => None,
        }
    }
}

/// Reads the report; `None` where there is no line or a line writes no number.
pub fn try_parse_input(input: &str) -> (r: Option<(u16, Vec<u16>)>)
    ensures
        r is Some == input_of(input@) is Some,
        r matches Some(p) ==> Some((p.0, p.1@)) == input_of(input@),
{
    let lines = rows_of(input);
    if lines.len() == 0 {
        return None;
    }
    assert(views(lines@)[0] == lines@[0]@);
    let first = chars(lines[0]);
    let len: u16 = (first.len() % 0x10000) as u16;
    let mut out: Vec<u16> = Vec::new();
    let mut i: usize = 0;
    while i < lines.len()
        invariant
            views(lines@) == rows(input@),
            0 <= i <= lines.len(),
            Some(out@) == numbers(rows(input@), i as int),
        decreases lines.len() - i,
    {
        assert(views(lines@)[i as int] == lines@[i as int]@);
        match parse_unsigned(lines[i], 2, 0xffff) {
            Some(x) => {
                out.push(x as u16);
            },
            None => {
                proof {
                    lemma_numbers_fail(rows(input@), i + 1, rows(input@).len() as int);
                }
                return None;
            },
        }
        i += 1;
    }
    Some((len, out))
}

/// Reads the report.
pub fn parse_input(input: &str) -> (r: (u16, Vec<u16>))
    requires
        input_of(input@) is Some,
    ensures
        Some((r.0, r.1@)) == input_of(input@),
{
    try_parse_input(input).unwrap()
}

/// The number whose lowest `n` bits are the common bits of the report at each place.
pub open spec fn rate(bits: Seq<u16>, n: int, most: bool) -> u16
    decreases n,
{
    if n <= 0 {
        0
    } else {
        rate(bits, n - 1, most) | (common(bits, (n - 1) as u16, most) << ((n - 1) as u16))
    }
}

/// Puts the common bits of the report together.
fn rate_of(bits: &Vec<u16>, len: u16, most: bool) -> (r: u16)
    requires
        len <= 16,
    ensures
        r == rate(bits@, len as int, most),
{
    let mut acc: u16 = 0;
    let mut i: u16 = 0;
    while i < len
        invariant
            0 <= i <= len <= 16,
            acc == rate(bits@, i as int, most),
        decreases len - i,
    {
        let b = common_of(bits, i, most);
        acc = acc | (b << i);
        i += 1;
    }
    acc
}

/// The two rates of the report multiplied; `None` where the input writes no report or its
/// lines are longer than sixteen bits.
pub open spec fn answer_1(input: Seq<char>) -> Option<int> {
    match input_of(input) {
        Some(p) => if 1 <= p.0 <= 16 {
            Some(rate(p.1, p.0 as int, true) * rate(p.1, p.0 as int, false))
        } else {
            None
        },
        None => None,
    }
}

/// What is left of the numbers after they have been filtered on the bits below `k`, from
/// the highest of them down; `None` where a place cannot be looked at.
pub open spec fn sifted(bits: Seq<u16>, k: int, most: bool) -> Option<Seq<u16>>
    decreases k,
{
    if k <= 0 {
        Some(bits)
    } else if filterable(bits, (k - 1) as u16) {
        sifted(filtered(bits, (k - 1) as u16, most), k - 1, most)
    } else {
        None
    }
}

/// The number that stays first when the report is filtered on every bit; `None` where none
/// stays or a place cannot be looked at.
pub open spec fn rating(bits: Seq<u16>, len: u16, most: bool) -> Option<u16> {
    match sifted(bits, len as int, most) {
        Some(left) => if left.len() > 0 {
            Some(left[0])
        } else {
            None
        },
        None => None,
    }
}

/// Filters the report on every bit and takes the first number that stays.
fn rating_of(bits: Vec<u16>, len: u16, most: bool) -> (r: Option<u16>)
    ensures
        r == rating(bits@, len, most),
{
    let mut left = bits;
    let mut k: u16 = len;
    while k > 0
        invariant
            0 <= k <= len,
            sifted(bits@, len as int, most) == sifted(left@, k as int, most),
        decreases k,
    {
        left = match sift(&left, k - 1, most) {
            Some(v) => v,
            None => {
                return None;
            },
        };
        k -= 1;
    }
    if left.len() > 0 {
        Some(left[0])
    } else {
        None
    }
}

/// The two ratings of the report multiplied; `None` where the input writes no report or a
/// rating cannot be found.
pub open spec fn answer_2(input: Seq<char>) -> Option<int> {
    match input_of(input) {
        Some(p) => match (rating(p.1, p.0, true), rating(p.1, p.0, false)) {
            (Some(a), Some(b)) => Some(a * b),
            _ => None,
        },
        None => None,
    }
}

/// Multiplies two numbers of sixteen bits and writes the product.
fn product(a: u16, b: u16) -> (r: String)
    ensures
        r@ == decimal(a * b),
{
    assert(0 <= a * b <= 0xffff * 0xffff) by (nonlinear_arith)
        requires
            0 <= a <= 0xffff,
            0 <= b <= 0xffff,
    ;
    format_u64((a as u64) * (b as u64))
}

/// The two rates of the report multiplied, if the report can be read.
pub fn try_puzzle_1(input: &str) -> (r: Option<String>)
    ensures
        r is Some == answer_1(input@) is Some,
        r matches Some(t) ==> t@ == decimal(answer_1(input@)->0),
{
    let (len, bits) = match try_parse_input(input) {
        Some(p) => p,
        None => {
            return None;
        },
    };
    if len < 1 || len > 16 {
        return None;
    }
    let gamma = rate_of(&bits, len, true);
    let epsilon = rate_of(&bits, len, false);
    Some(product(gamma, epsilon))
}

/// The two rates of the report multiplied.
pub fn puzzle_1(input: &str) -> (r: String)
    requires
        answer_1(input@) is Some,
    ensures
        r@ == decimal(answer_1(input@)->0),
{
    try_puzzle_1(input).unwrap()
}

/// The two ratings of the report multiplied, if the report can be read and both ratings
/// found.
pub fn try_puzzle_2(input: &str) -> (r: Option<String>)
    ensures
        r is Some == answer_2(input@) is Some,
        r matches Some(t) ==> t@ == decimal(answer_2(input@)->0),
{
    let (len, bits) = match try_parse_input(input) {
        Some(p) => p,
        None => {
            return None;
        },
    };
    let other = copy(&bits);
    let oxygen = match rating_of(bits, len, true) {
        Some(x) => x,
        None => {
            return None;
        },
    };
    match rating_of(other, len, false) {
        Some(x) => Some(product(oxygen, x)),
        None => None,
    }
}

/// The two ratings of the report multiplied.
pub fn puzzle_2(input: &str) -> (r: String)
    requires
        answer_2(input@) is Some,
    ensures
        r@ == decimal(answer_2(input@)->0),
{
    try_puzzle_2(input).unwrap()
}

} // verus!
