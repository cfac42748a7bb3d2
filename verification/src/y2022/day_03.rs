//! Rucksack reorganisation: the item found in both halves of a rucksack, and the badge that
//! a group of three rucksacks shares.

use crate::number::{decimal, format_u64};
use crate::text::{byte_len, bytes, chars, cut, cut_at, rows, rows_of, views};
use vstd::prelude::*;

verus! {

/// The priority of an item: 1 to 26 for `a` to `z`, 27 to 52 for `A` to `Z`, nought for the
/// underscore; other characters have none.
pub open spec fn priority(c: char) -> Option<int> {
    if 'a' <= c <= 'z' {
        Some(c as int - 'a' as int + 1)
    } else if 'A' <= c <= 'Z' {
        Some(c as int - 'A' as int + 27)
    } else if c == '_' {
        Some(0)
    } else {
        None
    }
}

/// The priority of an item, if it has one.
pub fn try_get_priorities(c: char) -> (r: Option<usize>)
    ensures
        r is Some == priority(c) is Some,
        r matches Some(n) ==> n == priority(c)->0,
{
    if 'a' <= c && c <= 'z' {
        Some((c as u32 - 'a' as u32 + 1) as usize)
    } else if 'A' <= c && c <= 'Z' {
        Some((c as u32 - 'A' as u32 + 27) as usize)
    } else if c == '_' {
        Some(0)
    } else {
        None
    }
}

/// The priority of an item.
pub fn get_priorities(c: char) -> (r: usize)
    requires
        priority(c) is Some,
    ensures
        r == priority(c)->0,
{
    try_get_priorities(c).unwrap()
}

/// Tells whether `c` stands in `v`.
fn holds(v: &Vec<char>, c: char) -> (r: bool)
    ensures
        r == v@.contains(c),
{
    let mut i: usize = 0;
    while i < v.len()
        invariant
            0 <= i <= v.len(),
            forall|j: int| 0 <= j < i ==> v@[j] != c,
        decreases v.len() - i,
    {
        if v[i] == c {
            return true;
        }
        i += 1;
    }
    false
}

/// The first item of `a`, from position `k` on, that `b` holds too.
pub open spec fn shared_from(a: Seq<char>, b: Seq<char>, k: int) -> Option<char>
    decreases a.len() - k,
{
    if k < 0 || k >= a.len() {
        None
    } else if b.contains(a[k]) {
        Some(a[k])
    } else {
        shared_from(a, b, k + 1)
    }
}

/// The first item of `a` that `b` holds too.
pub open spec fn shared(a: Seq<char>, b: Seq<char>) -> Option<char> {
    shared_from(a, b, 0)
}

/// What `shared` finds stands in both, and where it finds nothing the two have nothing in
/// common.
pub proof fn lemma_shared(a: Seq<char>, b: Seq<char>, k: int)
    requires
        0 <= k,
    ensures
        shared_from(a, b, k) matches Some(c) ==> a.contains(c) && b.contains(c),
        shared_from(a, b, k) is None ==> forall|i: int|
            k <= i < a.len() ==> !b.contains(#[trigger] a[i]),
    decreases a.len() - k,
{
    if k < a.len() && !b.contains(a[k]) {
        lemma_shared(a, b, k + 1);
    }
}

/// An item that both compartments hold, if there is one: the first such item of `first`.
pub fn try_get_shared_letter(first: &str, second: &str) -> (r: Option<char>)
    ensures
        r == shared(first@, second@),
{
    let a = chars(first);
    let b = chars(second);
    let mut k: usize = 0;
    while k < a.len()
        invariant
            a@ == first@,
            b@ == second@,
            0 <= k <= a.len(),
            shared(first@, second@) == shared_from(first@, second@, k as int),
        decreases a.len() - k,
    {
        if holds(&b, a[k]) {
            return Some(a[k]);
        }
        k += 1;
    }
    None
}

/// An item that both compartments hold.
pub fn get_shared_letter(first: &str, second: &str) -> (r: char)
    requires
        shared(first@, second@) is Some,
    ensures
        Some(r) == shared(first@, second@),
{
    try_get_shared_letter(first, second).unwrap()
}

/// The two compartments of a rucksack: what stands before and after the middle byte of the
/// row; `None` where the row cannot be cut there.
pub open spec fn halved(row: Seq<char>) -> Option<(Seq<char>, Seq<char>)> {
    if bytes(row, row.len() as int) > usize::MAX {
        None
    } else {
        cut(row, bytes(row, row.len() as int) / 2)
    }
}

/// The item that the two compartments of a rucksack share.
pub open spec fn item_of(row: Seq<char>) -> Option<char> {
    match halved(row) {
        Some(p) => shared(p.0, p.1),
        None => None,
    }
}

/// The shared items of the first `n` rucksacks; `None` where one of them has none.
pub open spec fn items(sacks: Seq<Seq<char>>, n: int) -> Option<Seq<char>>
    decreases n,
{
    if n <= 0 {
        Some(Seq::empty())
    } else {
        match (items(sacks, n - 1), item_of(sacks[n - 1])) {
            (Some(found), Some(c)) => Some(found.push(c)),
            _ => None,
        }
    }
}

/// The shared item of a rucksack, if it has one.
fn item(row: &str) -> (r: Option<char>)
    ensures
        r == item_of(row@),
{
    let n = match byte_len(row) {
        Some(n) => n,
        None => {
            return None;
        },
    };
    match cut_at(row, n / 2) {
        Some(p) => try_get_shared_letter(p.0, p.1),
        None => None,
    }
}

/// The shared item of every rucksack, one rucksack to each line that is not empty; `None`
/// where a rucksack has no shared item.
pub fn try_get_shared_letters(input: &str) -> (r: Option<Vec<char>>)
    ensures
        r is Some == items(rows(input@), rows(input@).len() as int) is Some,
        r matches Some(v) ==> Some(v@) == items(rows(input@), rows(input@).len() as int),
{
    let sacks = rows_of(input);
    let mut out: Vec<char> = Vec::new();
    let mut i: usize = 0;
    while i < sacks.len()
        invariant
            views(sacks@) == rows(input@),
            0 <= i <= sacks.len(),
            Some(out@) == items(rows(input@), i as int),
        decreases sacks.len() - i,
    {
        assert(views(sacks@)[i as int] == sacks@[i as int]@);
        match item(sacks[i]) {
            Some(c) => {
                out.push(c);
            },
            None => {
                proof {
                    lemma_items_fail(rows(input@), i + 1, rows(input@).len() as int);
                }
                return None;
            },
        }
        i += 1;
    }
    Some(out)
}

/// Once a rucksack has no shared item, no longer list of rucksacks has its items.
pub proof fn lemma_items_fail(sacks: Seq<Seq<char>>, n: int, m: int)
    requires
        n <= m,
        items(sacks, n) is None,
    ensures
        items(sacks, m) is None,
    decreases m,
{
    if n < m {
        lemma_items_fail(sacks, n, m - 1);
    }
}

/// The shared item of every rucksack, one rucksack to each line that is not empty.
pub fn get_shared_letters(input: &str) -> (r: Vec<char>)
    requires
        items(rows(input@), rows(input@).len() as int) is Some,
    ensures
        Some(r@) == items(rows(input@), rows(input@).len() as int),
{
    try_get_shared_letters(input).unwrap()
}

/// Whether every one of the rucksacks holds `c`.
pub open spec fn in_all(c: char, sacks: Seq<Seq<char>>) -> bool {
    forall|i: int| 0 <= i < sacks.len() ==> (#[trigger] sacks[i]).contains(c)
}

/// The first item of the first rucksack, from position `k` on, that every rucksack holds.
pub open spec fn badge_from(sacks: Seq<Seq<char>>, k: int) -> Option<char>
    decreases
            if sacks.len() > 0 {
                sacks[0].len() - k
            } else {
                0
            },
{
    if sacks.len() == 0 || k < 0 || k >= sacks[0].len() {
        None
    } else if in_all(sacks[0][k], sacks) {
        Some(sacks[0][k])
    } else {
        badge_from(sacks, k + 1)
    }
}

/// The first item of the first rucksack that every rucksack holds.
pub open spec fn badge(sacks: Seq<Seq<char>>) -> Option<char> {
    badge_from(sacks, 0)
}

/// Tells whether every rucksack of the group holds `c`.
fn all_hold(chunk: &[&str], c: char) -> (r: bool)
    ensures
        r == in_all(c, views(chunk@)),
{
    let mut i: usize = 0;
    while i < chunk.len()
        invariant
            0 <= i <= chunk.len(),
            forall|j: int| 0 <= j < i ==> (#[trigger] views(chunk@)[j]).contains(c),
        decreases chunk.len() - i,
    {
        let v = chars(chunk[i]);
        assert(views(chunk@)[i as int] == v@);
        if !holds(&v, c) {
            return false;
        }
        i += 1;
    }
    true
}

/// The first item of the first rucksack that every rucksack of the group holds.
pub fn get_group_shared_letter(chunk: &[&str]) -> (r: Option<char>)
    requires
        chunk.len() > 0,
    ensures
        r == badge(views(chunk@)),
{
    let first = chars(chunk[0]);
    assert(views(chunk@)[0] == first@);
    let mut k: usize = 0;
    while k < first.len()
        invariant
            chunk.len() > 0,
            views(chunk@)[0] == first@,
            0 <= k <= first.len(),
            badge(views(chunk@)) == badge_from(views(chunk@), k as int),
        decreases first.len() - k,
    {
        if all_hold(chunk, first[k]) {
            return Some(first[k]);
        }
        k += 1;
    }
    None
}

/// The rucksacks of group `g`: three in a row, fewer in the last group where the rucksacks
/// run out.
pub open spec fn group(sacks: Seq<Seq<char>>, g: int) -> Seq<Seq<char>> {
    sacks.subrange(
        3 * g,
        if 3 * g + 3 <= sacks.len() {
            3 * g + 3
        } else {
            sacks.len() as int
        },
    )
}

/// How many groups the rucksacks make.
pub open spec fn group_count(sacks: Seq<Seq<char>>) -> int {
    (sacks.len() as int + 2) / 3
}

/// The badges of the first `n` groups; `None` where one of them has none.
pub open spec fn badges(sacks: Seq<Seq<char>>, n: int) -> Option<Seq<char>>
    decreases n,
{
    if n <= 0 {
        Some(Seq::empty())
    } else {
        match (badges(sacks, n - 1), badge(group(sacks, n - 1))) {
            (Some(found), Some(c)) => Some(found.push(c)),
            _ => None,
        }
    }
}

/// Once a group has no badge, no longer list of groups has its badges.
pub proof fn lemma_badges_fail(sacks: Seq<Seq<char>>, n: int, m: int)
    requires
        n <= m,
        badges(sacks, n) is None,
    ensures
        badges(sacks, m) is None,
    decreases m,
{
    if n < m {
        lemma_badges_fail(sacks, n, m - 1);
    }
}

/// The badge of every group of three rucksacks, one rucksack to each line that is not
/// empty; `None` where a group has no badge.
pub fn try_get_group_letters(input: &str) -> (r: Option<Vec<char>>)
    ensures
        r is Some == badges(rows(input@), group_count(rows(input@))) is Some,
        r matches Some(v) ==> Some(v@) == badges(rows(input@), group_count(rows(input@))),
{
    let sacks = rows_of(input);
    let n = sacks.len();
    let mut out: Vec<char> = Vec::new();
    let mut from: usize = 0;
    let ghost mut g: int = 0;
    while from < n
        invariant
            views(sacks@) == rows(input@),
            n == sacks.len(),
            from == if 3 * g <= n {
                3 * g
            } else {
                n as int
            },
            0 <= g <= group_count(rows(input@)),
            from < n || g == group_count(rows(input@)),
            Some(out@) == badges(rows(input@), g),
        decreases n - from,
    {
        let to: usize = if n - from > 3 {
            from + 3
        } else {
            n
        };
        let mut chunk: Vec<&str> = Vec::new();
        let mut i: usize = from;
        while i < to
            invariant
                from <= i <= to <= sacks.len(),
                views(sacks@) == rows(input@),
                views(chunk@) == rows(input@).subrange(from as int, i as int),
            decreases to - i,
        {
            proof {
                assert(views(sacks@)[i as int] == sacks@[i as int]@);
                assert(views(chunk@.push(sacks@[i as int])) =~= views(chunk@).push(
                    sacks@[i as int]@,
                ));
                assert(rows(input@).subrange(from as int, i + 1) =~= rows(input@).subrange(
                    from as int,
                    i as int,
                ).push(rows(input@)[i as int]));
            }
            chunk.push(sacks[i]);
            i += 1;
        }
        assert(views(chunk@) == group(rows(input@), g));
        match get_group_shared_letter(chunk.as_slice()) {
            Some(c) => {
                out.push(c);
            },
            None => {
                proof {
                    lemma_badges_fail(rows(input@), g + 1, group_count(rows(input@)));
                }
                return None;
            },
        }
        from = to;
        proof {
            g = g + 1;
        }
    }
    Some(out)
}

/// The badge of every group of three rucksacks, one rucksack to each line that is not empty.
pub fn get_group_letters(input: &str) -> (r: Vec<char>)
    requires
        badges(rows(input@), group_count(rows(input@))) is Some,
    ensures
        Some(r@) == badges(rows(input@), group_count(rows(input@))),
{
    try_get_group_letters(input).unwrap()
}

/// The priorities of the first `n` items added up; `None` where one of them has none.
pub open spec fn worth(letters: Seq<char>, n: int) -> Option<int>
    decreases n,
{
    if n <= 0 {
        Some(0)
    } else {
        match (worth(letters, n - 1), priority(letters[n - 1])) {
            (Some(total), Some(p)) => Some(total + p),
            _ => None,
        }
    }
}

/// The priorities of the items added up, where each has one and the sum can be held.
pub open spec fn sum_of(letters: Option<Seq<char>>) -> Option<int> {
    match letters {
        Some(l) => match worth(l, l.len() as int) {
            Some(total) => if total <= usize::MAX {
                Some(total)
            } else {
                None
            },
            None => None,
        },
        None => None,
    }
}

/// A sum of priorities is not negative, it does not shrink as items are added, and it stays
/// undefined once it is.
pub proof fn lemma_worth(letters: Seq<char>, n: int, m: int)
    requires
        0 <= n <= m,
    ensures
        worth(letters, n) is None ==> worth(letters, m) is None,
        worth(letters, m) is Some ==> 0 <= worth(letters, n)->0 <= worth(letters, m)->0,
    decreases m,
{
    if m > 0 {
        if n < m {
            lemma_worth(letters, n, m - 1);
        } else {
            lemma_worth(letters, n - 1, m - 1);
        }
    }
}

/// Adds up the priorities of the items.
fn total(letters: &Vec<char>) -> (r: Option<usize>)
    ensures
        r is Some == sum_of(Some(letters@)) is Some,
        r matches Some(n) ==> Some(n as int) == sum_of(Some(letters@)),
{
    let mut sum: usize = 0;
    let mut i: usize = 0;
    while i < letters.len()
        invariant
            0 <= i <= letters.len(),
            Some(sum as int) == worth(letters@, i as int),
        decreases letters.len() - i,
    {
        proof {
            lemma_worth(letters@, i + 1, letters@.len() as int);
        }
        let p = match try_get_priorities(letters[i]) {
            Some(p) => p,
            None => {
                return None;
            },
        };
        if p > usize::MAX - sum {
            return None;
        }
        sum += p;
        i += 1;
    }
    Some(sum)
}

/// The priorities of the shared items of all rucksacks added up.
pub open spec fn answer_1(input: Seq<char>) -> Option<int> {
    sum_of(items(rows(input), rows(input).len() as int))
}

/// The priorities of the badges of all groups added up.
pub open spec fn answer_2(input: Seq<char>) -> Option<int> {
    sum_of(badges(rows(input), group_count(rows(input))))
}

/// The sum of the priorities of the shared items, if every rucksack has one.
pub fn try_puzzle_1(input: &str) -> (r: Option<String>)
    ensures
        r is Some == answer_1(input@) is Some,
        r matches Some(t) ==> t@ == decimal(answer_1(input@)->0),
{
    match try_get_shared_letters(input) {
        Some(letters) => match total(&letters) {
            Some(n) => Some(format_u64(n as u64)),
            None => None,
        },
        None => None,
    }
}

/// The sum of the priorities of the shared items.
pub fn puzzle_1(input: &str) -> (r: String)
    requires
        answer_1(input@) is Some,
    ensures
        r@ == decimal(answer_1(input@)->0),
{
    try_puzzle_1(input).unwrap()
}

/// The sum of the priorities of the badges, if every group has one.
pub fn try_puzzle_2(input: &str) -> (r: Option<String>)
    ensures
        r is Some == answer_2(input@) is Some,
        r matches Some(t) ==> t@ == decimal(answer_2(input@)->0),
{
    match try_get_group_letters(input) {
        Some(letters) => match total(&letters) {
            Some(n) => Some(format_u64(n as u64)),
            None => None,
        },
        None => None,
    }
}

/// The sum of the priorities of the badges.
pub fn puzzle_2(input: &str) -> (r: String)
    requires
        answer_2(input@) is Some,
    ensures
        r@ == decimal(answer_2(input@)->0),
{
    try_puzzle_2(input).unwrap()
}

} // verus!
