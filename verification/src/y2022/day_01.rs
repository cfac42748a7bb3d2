//! Calorie counting: the food that each elf carries, and the elves that carry most.

use crate::number::{parse_u32s, u32s};
use crate::text::{blocks, filled, filled_lines, nested, split_by, views};
use vstd::prelude::*;

verus! {

/// What parts one elf's list from the next: an empty line.
pub open spec fn gap() -> Seq<char> {
    seq!['\n', '\n']
}

/// The numbers on the lines of one elf's list that are not empty.
pub open spec fn meal(part: Seq<char>) -> Option<Seq<u32>> {
    u32s(filled(part), filled(part).len() as int)
}

/// The lists of the first `n` elves; `None` where a line writes no number.
pub open spec fn meals(parts: Seq<Seq<char>>, n: int) -> Option<Seq<Seq<u32>>>
    decreases n,
{
    if n <= 0 {
        Some(Seq::empty())
    } else {
        match (meals(parts, n - 1), meal(parts[n - 1])) {
            (Some(read), Some(m)) => Some(read.push(m)),
            _ => None,
        }
    }
}

/// Once a list cannot be read, no longer run of lists can.
pub proof fn lemma_meals_fail(parts: Seq<Seq<char>>, n: int, m: int)
    requires
        n <= m,
        meals(parts, n) is None,
    ensures
        meals(parts, m) is None,
    decreases m,
{
    if n < m {
        lemma_meals_fail(parts, n, m - 1);
    }
}

/// The lists of all elves in the input, which parts them by empty lines.
pub open spec fn input_of(input: Seq<char>) -> Option<Seq<Seq<u32>>> {
    meals(blocks(input, gap()), blocks(input, gap()).len() as int)
}

/// Reads the list of every elf; `None` where a line writes no number.
pub fn try_load_input_data(input: &str) -> (r: Option<Vec<Vec<u32>>>)
    ensures
        r is Some == input_of(input@) is Some,
        r matches Some(v) ==> Some(nested(v@)) == input_of(input@),
{
    proof {
        reveal_strlit("\n\n");
        assert("\n\n"@ =~= gap());
    }
    let parts = split_by(input, "\n\n");
    let mut out: Vec<Vec<u32>> = Vec::new();
    let mut i: usize = 0;
    assert(nested(out@) =~= Seq::<Seq<u32>>::empty());
    while i < parts.len()
        invariant
            views(parts@) == blocks(input@, gap()),
            0 <= i <= parts.len(),
            Some(nested(out@)) == meals(blocks(input@, gap()), i as int),
        decreases parts.len() - i,
    {
        assert(views(parts@)[i as int] == parts@[i as int]@);
        let rows = filled_lines(parts[i]);
        match parse_u32s(&rows) {
            Some(m) => {
                assert(nested(out@.push(m)) =~= nested(out@).push(m@));
                out.push(m);
            },
            None => {
                proof {
                    lemma_meals_fail(
                        blocks(input@, gap()),
                        i + 1,
                        blocks(input@, gap()).len() as int,
                    );
                }
                return None;
            },
        }
        i += 1;
    }
    Some(out)
}

/// Reads the list of every elf.
pub fn load_input_data(input: &str) -> (r: Vec<Vec<u32>>)
    requires
        input_of(input@) is Some,
    ensures
        Some(nested(r@)) == input_of(input@),
{
    try_load_input_data(input).unwrap()
}

/// The first `n` numbers of `s` added up.
pub open spec fn sum(s: Seq<u32>, n: int) -> int
    decreases n,
{
    if n <= 0 {
        0
    } else {
        sum(s, n - 1) + s[n - 1]
    }
}

/// A sum does not shrink as numbers are added.
pub proof fn lemma_sum_grows(s: Seq<u32>, n: int, m: int)
    requires
        n <= m,
    ensures
        sum(s, n) <= sum(s, m),
    decreases m - n,
{
    if n < m {
        lemma_sum_grows(s, n, m - 1);
    }
}

/// All of one list added up, where the sum can be held.
pub open spec fn whole(s: Seq<u32>) -> Option<u32> {
    if sum(s, s.len() as int) <= u32::MAX {
        Some(sum(s, s.len() as int) as u32)
    } else {
        None
    }
}

/// Adds up one list.
fn add_up(list: &Vec<u32>) -> (r: Option<u32>)
    ensures
        r == whole(list@),
{
    let mut total: u32 = 0;
    let mut i: usize = 0;
    while i < list.len()
        invariant
            0 <= i <= list.len(),
            total == sum(list@, i as int),
        decreases list.len() - i,
    {
        if list[i] > u32::MAX - total {
            proof {
                lemma_sum_grows(list@, i + 1, list@.len() as int);
            }
            return None;
        }
        total += list[i];
        i += 1;
    }
    Some(total)
}

/// What each of the first `n` elves carries in all; `None` where a sum cannot be held.
pub open spec fn totals(calories: Seq<Seq<u32>>, n: int) -> Option<Seq<u32>>
    decreases n,
{
    if n <= 0 {
        Some(Seq::empty())
    } else {
        match (totals(calories, n - 1), whole(calories[n - 1])) {
            (Some(done), Some(t)) => Some(done.push(t)),
            _ => None,
        }
    }
}

/// Once a sum cannot be held, no longer run of sums can.
pub proof fn lemma_totals_fail(calories: Seq<Seq<u32>>, n: int, m: int)
    requires
        n <= m,
        totals(calories, n) is None,
    ensures
        totals(calories, m) is None,
    decreases m,
{
    if n < m {
        lemma_totals_fail(calories, n, m - 1);
    }
}

/// What each elf carries in all.
pub open spec fn all_totals(calories: Seq<Seq<u32>>) -> Option<Seq<u32>> {
    totals(calories, calories.len() as int)
}

/// Adds up the list of each elf; `None` where a sum cannot be held.
pub fn try_get_total_calories_by_elf(calories: Vec<Vec<u32>>) -> (r: Option<Vec<u32>>)
    ensures
        r is Some == all_totals(nested(calories@)) is Some,
        r matches Some(v) ==> Some(v@) == all_totals(nested(calories@)),
{
    let mut out: Vec<u32> = Vec::new();
    let mut i: usize = 0;
    while i < calories.len()
        invariant
            0 <= i <= calories.len(),
            Some(out@) == totals(nested(calories@), i as int),
        decreases calories.len() - i,
    {
        assert(nested(calories@)[i as int] == calories@[i as int]@);
        match add_up(&calories[i]) {
            Some(t) => {
                out.push(t);
            },
            None => {
                proof {
                    lemma_totals_fail(nested(calories@), i + 1, calories@.len() as int);
                }
                return None;
            },
        }
        i += 1;
    }
    Some(out)
}

/// Adds up the list of each elf.
pub fn get_total_calories_by_elf(calories: Vec<Vec<u32>>) -> (r: Vec<u32>)
    requires
        all_totals(nested(calories@)) is Some,
    ensures
        Some(r@) == all_totals(nested(calories@)),
{
    try_get_total_calories_by_elf(calories).unwrap()
}

/// What each elf of the input carries in all.
pub open spec fn carried(input: Seq<char>) -> Option<Seq<u32>> {
    match input_of(input) {
        Some(calories) => all_totals(calories),
        None => None,
    }
}

/// Whether `m` is the largest of the numbers, or nought where there is none.
pub open spec fn is_most(s: Seq<u32>, m: u32) -> bool {
    &&& forall|i: int| 0 <= i < s.len() ==> s[i] <= m
    &&& s.len() == 0 ==> m == 0
    &&& s.len() > 0 ==> exists|i: int| 0 <= i < s.len() && s[i] == m
}

/// Finds the largest of the numbers.
fn most(s: &Vec<u32>) -> (m: u32)
    ensures
        is_most(s@, m),
{
    let mut m: u32 = 0;
    let mut i: usize = 0;
    let ghost mut at: int = 0;
    while i < s.len()
        invariant
            0 <= i <= s.len(),
            forall|j: int| 0 <= j < i ==> s@[j] <= m,
            i == 0 ==> m == 0,
            i > 0 ==> 0 <= at < i && s@[at] == m,
        decreases s.len() - i,
    {
        if s[i] >= m {
            m = s[i];
            proof {
                at = i as int;
            }
        }
        i += 1;
    }
    m
}

/// The most that one elf carries, if the input can be read and added up.
pub fn try_puzzle_1(input: &str) -> (r: Option<u32>)
    ensures
        r is Some == carried(input@) is Some,
        r matches Some(m) ==> is_most(carried(input@)->0, m),
{
    let calories = match try_load_input_data(input) {
        Some(c) => c,
        None => {
            return None;
        },
    };
    match try_get_total_calories_by_elf(calories) {
        Some(t) => Some(most(&t)),
        None => None,
    }
}

/// The most that one elf carries.
pub fn puzzle_1(input: &str) -> (r: u32)
    requires
        carried(input@) is Some,
    ensures
        is_most(carried(input@)->0, r),
{
    try_puzzle_1(input).unwrap()
}

/// The three largest of the first `n` numbers, the largest first; nought stands where
/// there are fewer than three.
pub open spec fn largest_three(s: Seq<u32>, n: int) -> (u32, u32, u32)
    decreases n,
{
    if n <= 0 {
        (0, 0, 0)
    } else {
        let t = largest_three(s, n - 1);
        let x = s[n - 1];
        if x >= t.0 {
            (x, t.0, t.1)
        } else if x >= t.1 {
            (t.0, x, t.1)
        } else if x >= t.2 {
            (t.0, t.1, x)
        } else {
            t
        }
    }
}

/// The places among the first `n` numbers at which the three largest stand, the place of the
/// largest first; -1 stands where there are fewer than three numbers.
pub open spec fn places(s: Seq<u32>, n: int) -> (int, int, int)
    decreases n,
{
    if n <= 0 {
        (-1, -1, -1)
    } else {
        let p = places(s, n - 1);
        let t = largest_three(s, n - 1);
        let x = s[n - 1];
        if x >= t.0 {
            (n - 1, p.0, p.1)
        } else if x >= t.1 {
            (p.0, n - 1, p.1)
        } else if x >= t.2 {
            (p.0, p.1, n - 1)
        } else {
            p
        }
    }
}

/// The three largest numbers stand at three different places, the first is no less than the
/// second and the second no less than the third, and no number at another place is larger
/// than the third.
pub proof fn lemma_largest_three(s: Seq<u32>, n: int)
    requires
        0 <= n <= s.len(),
    ensures
        ({
            let p = places(s, n);
            let t = largest_three(s, n);
            &&& t.0 >= t.1 >= t.2
            &&& -1 <= p.0 < n && -1 <= p.1 < n && -1 <= p.2 < n
            &&& (p.0 == -1 <==> n <= 0) && (p.1 == -1 <==> n <= 1) && (p.2 == -1 <==> n <= 2)
            &&& p.0 >= 0 ==> s[p.0] == t.0 && p.0 != p.1 && p.0 != p.2
            &&& p.1 >= 0 ==> s[p.1] == t.1 && p.1 != p.2
            &&& p.2 >= 0 ==> s[p.2] == t.2
            &&& p.0 == -1 ==> t.0 == 0
            &&& p.1 == -1 ==> t.1 == 0
            &&& p.2 == -1 ==> t.2 == 0
            &&& forall|m: int| 0 <= m < n && m != p.0 && m != p.1 && m != p.2 ==> s[m] <= t.2
        }),
    decreases n,
{
    if n > 0 {
        lemma_largest_three(s, n - 1);
    }
}

/// What the three elves that carry most carry together; `None` where there are fewer than
/// three elves or the sum cannot be held.
pub open spec fn top_three(s: Seq<u32>) -> Option<u32> {
    let t = largest_three(s, s.len() as int);
    if s.len() < 3 || t.0 + t.1 + t.2 > u32::MAX {
        None
    } else {
        Some((t.0 + t.1 + t.2) as u32)
    }
}

/// What the three elves that carry most carry together.
pub open spec fn answer_2(input: Seq<char>) -> Option<u32> {
    match carried(input) {
        Some(t) => top_three(t),
        None => None,
    }
}

/// Adds up the three largest numbers.
fn three_most(s: &Vec<u32>) -> (r: Option<u32>)
    ensures
        r == top_three(s@),
{
    if s.len() < 3 {
        return None;
    }
    let mut a: u32 = 0;
    let mut b: u32 = 0;
    let mut c: u32 = 0;
    let mut i: usize = 0;
    while i < s.len()
        invariant
            0 <= i <= s.len(),
            (a, b, c) == largest_three(s@, i as int),
        decreases s.len() - i,
    {
        let x = s[i];
        if x >= a {
            c = b;
            b = a;
            a = x;
        } else if x >= b {
            c = b;
            b = x;
        } else if x >= c {
            c = x;
        }
        i += 1;
    }
    if b > u32::MAX - a || c > u32::MAX - a - b {
        None
    } else {
        Some(a + b + c)
    }
}

/// What the three elves that carry most carry together, if there are three and the input
/// can be read and added up.
pub fn try_puzzle_2(input: &str) -> (r: Option<u32>)
    ensures
        r == answer_2(input@),
{
    let calories = match try_load_input_data(input) {
        Some(c) => c,
        None => {
            return None;
        },
    };
    match try_get_total_calories_by_elf(calories) {
        Some(t) => three_most(&t),
        None => None,
    }
}

/// What the three elves that carry most carry together.
pub fn puzzle_2(input: &str) -> (r: u32)
    requires
        answer_2(input@) is Some,
    ensures
        Some(r) == answer_2(input@),
{
    try_puzzle_2(input).unwrap()
}

} // verus!
