//! Supply stacks: a drawing of piles of crates, and the steps of a crane that moves them.

use crate::number::{parse_u32, u32_of};
use crate::text::{
    chars, halves_at, nested, pieces, remove, rows, rows_of, split, split_once_at, trim, trimmed,
    views, without,
};
use vstd::prelude::*;

verus! {

/// The piles of crates, each from its bottom to its top.
pub type Piles = Vec<Vec<char>>;

/// One step of the crane: how many crates to move, from which pile and to which, the piles
/// counted from 1.
#[derive(Debug, PartialEq, Eq)]
pub struct Step {
    pub number: u32,
    pub from: u32,
    pub to: u32,
}

/// The kind of crane: the 9000 moves one crate at a time, the 9001 several at once.
#[derive(Clone, Copy)]
pub enum Crane {
    Crane9000,
    Crane9001,
}

/// The letter of a crate drawn in a chunk of at most four characters: the second character of
/// what is left when the white space at the ends is taken away.
pub open spec fn letter(chunk: Seq<char>) -> Option<char> {
    if trimmed(chunk).len() > 1 {
        Some(trimmed(chunk)[1])
    } else {
        None
    }
}

/// The chunk of the line in which the crate of pile `i` is drawn, the piles counted from 0.
pub open spec fn chunk(line: Seq<char>, i: int) -> Seq<char> {
    if 4 * i + 4 <= line.len() {
        line.subrange(4 * i, 4 * i + 4)
    } else if 4 * i < line.len() {
        line.subrange(4 * i, line.len() as int)
    } else {
        Seq::empty()
    }
}

/// The crates that a line of the drawing shows, one entry for each of the piles.
pub open spec fn crates_of(line: Seq<char>, crate_number: int) -> Seq<Option<char>> {
    Seq::new(crate_number as nat, |i: int| letter(chunk(line, i)))
}

/// White space alone draws no crate.
proof fn lemma_no_letter_in_nothing()
    ensures
        letter(Seq::<char>::empty()) is None,
{
}

/// Reads the crates that a line of the drawing shows.
pub fn get_crates(line: &str, crate_number: usize) -> (crates: Vec<Option<char>>)
    requires
        line@.len() <= 4 * crate_number,
    ensures
        crates@ == crates_of(line@, crate_number as int),
{
    let v = chars(line);
    let mut crates: Vec<Option<char>> = Vec::new();
    let mut index: usize = 0;
    while index < crate_number
        invariant
            v@ == line@,
            0 <= index <= crate_number,
            line@.len() <= 4 * crate_number,
            crates.len() == index,
            forall|i: int| 0 <= i < index ==> #[trigger] crates[i] == letter(chunk(line@, i)),
        decreases crate_number - index,
    {
        let found = if index < v.len() / 4 + 1 && 4 * index < v.len() {
            let end = if v.len() - 4 * index >= 4 {
                4 * index + 4
            } else {
                v.len()
            };
            let piece = line.substring_char(4 * index, end);
            let inner = chars(trim(piece));
            if inner.len() > 1 {
                Some(inner[1])
            } else {
                None
            }
        } else {
            proof {
                lemma_no_letter_in_nothing();
            }
            None
        };
        crates.push(found);
        index += 1;
    }
    assert(crates@ =~= crates_of(line@, crate_number as int));
    crates
}

/// How many of the first `n` characters of the line are digits.
pub open spec fn digit_count(line: Seq<char>, n: int) -> int
    decreases n,
{
    if n <= 0 {
        0
    } else {
        digit_count(line, n - 1) + if '0' <= line[n - 1] <= '9' {
            1int
        } else {
            0int
        }
    }
}

/// The piles with the crates of one more row of the drawing on top.
pub open spec fn with_row(piles: Seq<Seq<char>>, row: Seq<Option<char>>) -> Seq<Seq<char>> {
    Seq::new(
        piles.len(),
        |i: int|
            match row[i] {
                Some(c) => piles[i].push(c),
                None => piles[i],
            },
    )
}

/// The piles that the `k` lowest lines of crates draw, where `lines` ends with the line of
/// pile numbers; `None` when a line is longer than four characters for each pile.
pub open spec fn piled(lines: Seq<Seq<char>>, k: int, count: int) -> Option<Seq<Seq<char>>>
    decreases k,
{
    if k <= 0 {
        Some(Seq::new(count as nat, |i: int| Seq::<char>::empty()))
    } else {
        let line = lines[lines.len() - 1 - k];
        match piled(lines, k - 1, count) {
            Some(piles) => if line.len() == 0 {
                Some(piles)
            } else if line.len() <= 4 * count {
                Some(with_row(piles, crates_of(line, count)))
            } else {
                None
            },
            None => None,
        }
    }
}

/// The piles that a drawing shows. Its last line numbers the piles with one digit each; the
/// lines above it show the crates, the lowest last.
pub open spec fn piles_of(input: Seq<char>) -> Option<Seq<Seq<char>>> {
    let lines = pieces(input, '\n');
    let last = lines.last();
    piled(lines, lines.len() - 1, digit_count(last, last.len() as int))
}

fn count_digits(line: &str) -> (r: usize)
    ensures
        r == digit_count(line@, line@.len() as int),
{
    let v = chars(line);
    let mut count: usize = 0;
    let mut i: usize = 0;
    while i < v.len()
        invariant
            v@ == line@,
            0 <= i <= v.len(),
            count == digit_count(line@, i as int),
            count <= i,
        decreases v.len() - i,
    {
        if '0' <= v[i] && v[i] <= '9' {
            count += 1;
        }
        i += 1;
    }
    count
}

/// Reads the piles of a drawing, if no line is too long for them.
pub fn try_parse_piles(input: &str) -> (r: Option<Piles>)
    ensures
        r is Some == piles_of(input@) is Some,
        r is Some ==> nested(r->0@) == piles_of(input@)->0,
{
    let lines = split(input, '\n');
    proof {
        crate::text::lemma_pieces_not_empty(input@, '\n', 0);
    }
    let ghost all = pieces(input@, '\n');
    assert(forall|i: int| 0 <= i < lines.len() ==> #[trigger] lines@[i]@ == all[i]) by {
        assert(forall|i: int| 0 <= i < lines.len() ==> #[trigger] views(lines@)[i] == lines@[i]@);
    }
    let n = lines.len();
    let count = count_digits(lines[n - 1]);
    let mut piles: Vec<Vec<char>> = Vec::new();
    let mut p: usize = 0;
    while p < count
        invariant
            0 <= p <= count,
            piles.len() == p,
            forall|i: int| 0 <= i < p ==> (#[trigger] piles[i])@ == Seq::<char>::empty(),
        decreases count - p,
    {
        piles.push(Vec::new());
        p += 1;
    }
    assert(nested(piles@) =~= piled(all, 0, count as int)->0);
    let mut k: usize = 0;
    while k < n - 1
        invariant
            all == pieces(input@, '\n'),
            n == lines.len(),
            n == all.len(),
            n >= 1,
            forall|i: int| 0 <= i < lines.len() ==> #[trigger] lines@[i]@ == all[i],
            0 <= k <= n - 1,
            piles.len() == count,
            count == digit_count(all.last(), all.last().len() as int),
            piled(all, k as int, count as int) == Some(nested(piles@)),
        decreases n - 1 - k,
    {
        let line = lines[n - 2 - k];
        assert(line@ == all[all.len() - 1 - (k + 1)]);
        if !line.is_empty() {
            let width = chars(line).len();
            if count < width / 4 + 1 && width > 4 * count {
                assert(piled(all, k + 1, count as int) is None);
                proof {
                    lemma_piled_stays_none(all, k + 1, n - 1, count as int);
                }
                return None;
            }
            let crates = get_crates(line, count);
            let ghost before = nested(piles@);
            let mut i: usize = 0;
            while i < count
                invariant
                    0 <= i <= count,
                    piles.len() == count,
                    before.len() == count,
                    crates@ == crates_of(line@, count as int),
                    forall|j: int|
                        0 <= j < i ==> (#[trigger] piles[j])@ == with_row(before, crates@)[j],
                    forall|j: int| i <= j < count ==> (#[trigger] piles[j])@ == before[j],
                decreases count - i,
            {
                if let Some(c) = crates[i] {
                    piles[i].push(c);
                }
                i += 1;
            }
            assert(nested(piles@) =~= with_row(before, crates@));
        }
        k += 1;
    }
    Some(piles)
}

/// Once a line is too long, the drawing shows no piles.
pub proof fn lemma_piled_stays_none(lines: Seq<Seq<char>>, k: int, m: int, count: int)
    requires
        0 <= k <= m,
        piled(lines, k, count) is None,
    ensures
        piled(lines, m, count) is None,
    decreases m,
{
    if k < m {
        lemma_piled_stays_none(lines, k, m - 1, count);
    }
}

/// Reads the piles of a drawing.
pub fn parse_piles(input: &str) -> (r: Piles)
    requires
        piles_of(input@) is Some,
    ensures
        nested(r@) == piles_of(input@)->0,
{
    try_parse_piles(input).unwrap()
}

/// The step that a line writes: the number before `from` without the word `move`, the pile
/// between `from` and `to`, and the pile after `to`, each with white space around it.
pub open spec fn step_of(line: Seq<char>) -> Option<Step> {
    match halves_at(line, "from"@) {
        Some((number_str, rest_str)) => match halves_at(rest_str, "to"@) {
            Some((from_str, to_str)) => match (
                u32_of(trimmed(without(number_str, "move"@))),
                u32_of(trimmed(from_str)),
                u32_of(trimmed(to_str)),
            ) {
                (Some(number), Some(from), Some(to)) => Some(Step { number, from, to }),
                _ => None,
            },
            None => None,
        },
        None => None,
    }
}

/// The steps that the first `n` lines write; `None` when one of them writes none.
pub open spec fn steps(lines: Seq<Seq<char>>, n: int) -> Option<Seq<Step>>
    decreases n,
{
    if n <= 0 {
        Some(Seq::empty())
    } else {
        match (steps(lines, n - 1), step_of(lines[n - 1])) {
            (Some(s), Some(step)) => Some(s.push(step)),
            _ => None,
        }
    }
}

/// The steps that the non-empty lines of `input` write.
pub open spec fn steps_of(input: Seq<char>) -> Option<Seq<Step>> {
    steps(rows(input), rows(input).len() as int)
}

fn try_parse_step(line: &str) -> (r: Option<Step>)
    ensures
        r == step_of(line@),
{
    proof {
        reveal_strlit("from");
        reveal_strlit("to");
        reveal_strlit("move");
    }
    let (number_str, rest_str) = match split_once_at(line, "from") {
        Some(p) => p,
        None => {
            return None;
        },
    };
    let (from_str, to_str) = match split_once_at(rest_str, "to") {
        Some(p) => p,
        None => {
            return None;
        },
    };
    let bare = remove(number_str, "move");
    let number = parse_u32(trim(bare.as_str()));
    let from = parse_u32(trim(from_str));
    let to = parse_u32(trim(to_str));
    match (number, from, to) {
        (Some(number), Some(from), Some(to)) => Some(Step { number, from, to }),
        _ => None,
    }
}

/// Reads the steps, if every non-empty line writes one.
pub fn try_parse_steps(input: &str) -> (r: Option<Vec<Step>>)
    ensures
        r is Some == steps_of(input@) is Some,
        r is Some ==> r->0@ == steps_of(input@)->0,
{
    let lines = rows_of(input);
    let mut out: Option<Vec<Step>> = Some(Vec::new());
    let mut i: usize = 0;
    while i < lines.len()
        invariant
            views(lines@) == rows(input@),
            0 <= i <= lines.len(),
            out is Some == steps(rows(input@), i as int) is Some,
            out is Some ==> out->0@ == steps(rows(input@), i as int)->0,
        decreases lines.len() - i,
    {
        assert(views(lines@)[i as int] == lines@[i as int]@);
        out = match (out, try_parse_step(lines[i])) {
            (Some(mut list), Some(step)) => {
                list.push(step);
                Some(list)
            },
            _ => None,
        };
        i += 1;
    }
    out
}

/// Reads the steps.
pub fn parse_steps(input: &str) -> (r: Vec<Step>)
    requires
        steps_of(input@) is Some,
    ensures
        r@ == steps_of(input@)->0,
{
    try_parse_steps(input).unwrap()
}

/// `s` from its end to its start.
pub open spec fn flipped(s: Seq<char>) -> Seq<char> {
    Seq::new(s.len(), |i: int| s[s.len() - 1 - i])
}

impl Step {
    /// Whether the crane can make the step: the piles exist and the pile to take from holds
    /// the crates. A step that moves no crate can always be made; the 9000 can move any number
    /// of crates from a pile to itself if the pile holds one.
    pub open spec fn possible(self, piles: Seq<Seq<char>>, crane: Crane) -> bool {
        self.number == 0 || (1 <= self.from <= piles.len() && 1 <= self.to <= piles.len() && (if crane is Crane9000
            && self.from == self.to {
            piles[self.from - 1].len() >= 1
        } else {
            piles[self.from - 1].len() >= self.number
        }))
    }

    /// The piles after the step: the crates leave the top of one pile and come on top of the
    /// other, in their order with the 9001 and in the opposite order with the 9000.
    pub open spec fn moved(self, piles: Seq<Seq<char>>, crane: Crane) -> Seq<Seq<char>> {
        let f = self.from - 1;
        let t = self.to - 1;
        if self.number == 0 || f == t {
            piles
        } else {
            let keep = piles[f].len() - self.number;
            let taken = piles[f].skip(keep);
            piles.update(f, piles[f].take(keep)).update(
                t,
                piles[t] + if crane is Crane9001 {
                    taken
                } else {
                    flipped(taken)
                },
            )
        }
    }

    /// Tells whether the crane can make the step.
    pub fn can_move(&self, piles: &Piles, crane_type: Crane) -> (r: bool)
        ensures
            r == self.possible(nested(piles@), crane_type),
    {
        if self.number == 0 {
            return true;
        }
        if self.from < 1 || self.to < 1 || self.from as usize > piles.len() || self.to as usize
            > piles.len() {
            return false;
        }
        assert(nested(piles@)[self.from - 1] == piles@[self.from - 1]@);
        let held = piles[self.from as usize - 1].len();
        match crane_type {
            Crane::Crane9000 => if self.from == self.to {
                held >= 1
            } else {
                held >= self.number as usize
            },
            Crane::Crane9001 => held >= self.number as usize,
        }
    }

    /// Makes the step.
    pub fn perform_move(&self, piles: &mut Piles, crane_type: Crane)
        requires
            self.possible(nested(old(piles)@), crane_type),
        ensures
            nested(final(piles)@) == self.moved(nested(old(piles)@), crane_type),
    {
        let ghost orig = nested(piles@);
        if self.number == 0 {
            return ;
        }
        let f = self.from as usize - 1;
        let t = self.to as usize - 1;
        assert(orig[f as int] == piles@[f as int]@);
        assert(orig[t as int] == piles@[t as int]@);
        match crane_type {
            Crane::Crane9000 => {
                let ghost len0 = orig[f as int].len();
                let mut k: u32 = 0;
                proof {
                    assert(orig[f as int].take(len0 as int) =~= orig[f as int]);
                    assert(orig[t as int] + flipped(orig[f as int].skip(len0 as int))
                        =~= orig[t as int]);
                    assert(orig =~= orig.update(f as int, orig[f as int]).update(
                        t as int,
                        orig[t as int],
                    ));
                }
                while k < self.number
                    invariant
                        orig.len() == piles.len(),
                        f < piles.len(),
                        t < piles.len(),
                        f == self.from - 1,
                        t == self.to - 1,
                        len0 == orig[f as int].len(),
                        f != t ==> len0 >= self.number,
                        f == t ==> len0 >= 1,
                        0 <= k <= self.number,
                        f == t ==> nested(piles@) == orig,
                        f != t ==> nested(piles@) == orig.update(
                            f as int,
                            orig[f as int].take(len0 - k),
                        ).update(t as int, orig[t as int] + flipped(orig[f as int].skip(len0 - k))),
                    decreases self.number - k,
                {
                    let ghost before = nested(piles@);
                    let ghost p0 = piles@;
                    assert(before[f as int] == piles@[f as int]@);
                    assert(before[t as int] == piles@[t as int]@);
                    let c = piles[f].pop().unwrap();
                    let ghost p1 = piles@;
                    piles[t].push(c);
                    proof {
                        let now = nested(piles@);
                        assert forall|i: int| 0 <= i < now.len() && i != f && i != t implies now[i]
                            == before[i] by {
                            assert(now[i] == piles@[i]@);
                            assert(piles@[i] == p1[i]);
                            assert(p1[i] == p0[i]);
                            assert(before[i] == p0[i]@);
                        }
                        if f == t {
                            assert(now[f as int] == piles@[f as int]@);
                            assert(now[f as int] =~= before[f as int]);
                            assert(now =~= orig);
                        } else {
                            assert(now[f as int] == piles@[f as int]@);
                            assert(now[t as int] == piles@[t as int]@);
                            assert(c == orig[f as int][len0 - k - 1]);
                            assert(orig[f as int].take(len0 - k).drop_last() =~= orig[f as int].take(
                                len0 - k - 1,
                            ));
                            assert(flipped(orig[f as int].skip(len0 - k)).push(c) =~= flipped(
                                orig[f as int].skip(len0 - k - 1),
                            ));
                            assert((orig[t as int] + flipped(orig[f as int].skip(len0 - k))).push(c)
                                =~= orig[t as int] + flipped(orig[f as int].skip(len0 - k - 1)));
                            assert(now =~= orig.update(
                                f as int,
                                orig[f as int].take(len0 - k - 1),
                            ).update(
                                t as int,
                                orig[t as int] + flipped(orig[f as int].skip(len0 - k - 1)),
                            ));
                        }
                    }
                    k += 1;
                }
            },
            Crane::Crane9001 => {
                let keep = piles[f].len() - self.number as usize;
                let mut to_move = piles[f].split_off(keep);
                let ghost middle = nested(piles@);
                assert(middle[f as int] == piles@[f as int]@);
                assert(middle[t as int] == piles@[t as int]@);
                piles[t].append(&mut to_move);
                proof {
                    let now = nested(piles@);
                    assert(now[t as int] == piles@[t as int]@);
                    assert(now[f as int] == piles@[f as int]@);
                    if f == t {
                        assert(now[f as int] =~= orig[f as int]);
                        assert(now =~= orig);
                    } else {
                        assert(now[f as int] =~= orig[f as int].take(keep as int));
                        assert(now[t as int] =~= orig[t as int] + orig[f as int].skip(keep as int));
                        assert(now =~= self.moved(orig, crane_type));
                    }
                }
            },
        }
    }
}

/// The parts of `input` before and after its first empty line: the drawing and the steps.
pub open spec fn parts_of(input: Seq<char>) -> Option<(Seq<char>, Seq<char>)> {
    halves_at(input, "\n\n"@)
}

/// The piles and the steps that `input` writes.
pub open spec fn input_of(input: Seq<char>) -> Option<(Seq<Seq<char>>, Seq<Step>)> {
    match parts_of(input) {
        Some((drawing, list)) => match (piles_of(drawing), steps_of(list)) {
            (Some(piles), Some(steps)) => Some((piles, steps)),
            _ => None,
        },
        None => None,
    }
}

/// Reads the piles and the steps, if `input` writes them.
pub fn try_parse_input(input: &str) -> (r: Option<(Piles, Vec<Step>)>)
    ensures
        r is Some == input_of(input@) is Some,
        r matches Some(p) ==> input_of(input@) == Some((nested(p.0@), p.1@)),
{
    proof {
        reveal_strlit("\n\n");
    }
    match split_once_at(input, "\n\n") {
        Some((piles, steps)) => match (try_parse_piles(piles), try_parse_steps(steps)) {
            (Some(piles), Some(steps)) => Some((piles, steps)),
            _ => None,
        },
        None => None,
    }
}

/// Reads the piles and the steps.
pub fn parse_input(input: &str) -> (r: (Piles, Vec<Step>))
    requires
        input_of(input@) is Some,
    ensures
        input_of(input@) == Some((nested(r.0@), r.1@)),
{
    try_parse_input(input).unwrap()
}

/// The crates on top of the first `n` piles, one after the other; an empty pile adds nothing.
pub open spec fn tops(piles: Seq<Seq<char>>, n: int) -> Seq<char>
    decreases n,
{
    if n <= 0 {
        Seq::empty()
    } else if piles[n - 1].len() > 0 {
        tops(piles, n - 1).push(piles[n - 1].last())
    } else {
        tops(piles, n - 1)
    }
}

/// The crates on top of the piles, one after the other.
pub fn get_result(piles: &Piles) -> (result: String)
    ensures
        result@ == tops(nested(piles@), piles.len() as int),
{
    let mut result = String::new();
    let mut i: usize = 0;
    while i < piles.len()
        invariant
            0 <= i <= piles.len(),
            result@ == tops(nested(piles@), i as int),
        decreases piles.len() - i,
    {
        assert(nested(piles@)[i as int] == piles@[i as int]@);
        let pile = &piles[i];
        if pile.len() > 0 {
            result.push(pile[pile.len() - 1]);
        }
        i += 1;
    }
    result
}

/// The piles after the first `k` steps; `None` when one of them cannot be made.
pub open spec fn run(piles: Seq<Seq<char>>, steps: Seq<Step>, k: int, crane: Crane) -> Option<
    Seq<Seq<char>>,
>
    decreases k,
{
    if k <= 0 {
        Some(piles)
    } else {
        match run(piles, steps, k - 1, crane) {
            Some(p) if steps[k - 1].possible(p, crane) => Some(steps[k - 1].moved(p, crane)),
            _ => None,
        }
    }
}

/// The crates that end up on top of the piles.
pub open spec fn answer(input: Seq<char>, crane: Crane) -> Option<Seq<char>> {
    match input_of(input) {
        Some((piles, steps)) => match run(piles, steps, steps.len() as int, crane) {
            Some(p) => Some(tops(p, p.len() as int)),
            None => None,
        },
        None => None,
    }
}

fn rearrange(input: &str, crane: Crane) -> (r: Option<String>)
    ensures
        r is Some == answer(input@, crane) is Some,
        r is Some ==> r->0@ == answer(input@, crane)->0,
{
    let (mut piles, steps) = match try_parse_input(input) {
        Some(parsed) => parsed,
        None => {
            return None;
        },
    };
    let ghost start = nested(piles@);
    let mut possible = true;
    let mut k: usize = 0;
    while k < steps.len()
        invariant
            0 <= k <= steps.len(),
            possible == run(start, steps@, k as int, crane) is Some,
            possible ==> run(start, steps@, k as int, crane) == Some(nested(piles@)),
        decreases steps.len() - k,
    {
        if possible {
            if steps[k].can_move(&piles, crane) {
                steps[k].perform_move(&mut piles, crane);
            } else {
                possible = false;
            }
        }
        k += 1;
    }
    if possible {
        let result = get_result(&piles);
        assert(nested(piles@).len() == piles.len());
        Some(result)
    } else {
        None
    }
}

/// The crates on top of the piles after the crane 9000 has made the steps, if it can.
pub fn try_puzzle_1(input: &str) -> (r: Option<String>)
    ensures
        r is Some == answer(input@, Crane::Crane9000) is Some,
        r is Some ==> r->0@ == answer(input@, Crane::Crane9000)->0,
{
    rearrange(input, Crane::Crane9000)
}

/// The crates on top of the piles after the crane 9000 has made the steps.
pub fn puzzle_1(input: &str) -> (r: String)
    requires
        answer(input@, Crane::Crane9000) is Some,
    ensures
        r@ == answer(input@, Crane::Crane9000)->0,
{
    rearrange(input, Crane::Crane9000).unwrap()
}

/// The crates on top of the piles after the crane 9001 has made the steps, if it can.
pub fn try_puzzle_2(input: &str) -> (r: Option<String>)
    ensures
        r is Some == answer(input@, Crane::Crane9001) is Some,
        r is Some ==> r->0@ == answer(input@, Crane::Crane9001)->0,
{
    rearrange(input, Crane::Crane9001)
}

/// The crates on top of the piles after the crane 9001 has made the steps.
pub fn puzzle_2(input: &str) -> (r: String)
    requires
        answer(input@, Crane::Crane9001) is Some,
    ensures
        r@ == answer(input@, Crane::Crane9001)->0,
{
    rearrange(input, Crane::Crane9001).unwrap()
}

} // verus!
