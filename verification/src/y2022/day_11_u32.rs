//! Monkey in the middle, with worry levels of 32 bits that are never reduced: monkeys that
//! inspect items and throw them to each other.

use crate::number::{decimal, format_u64, parse_u32, u32_of};
use crate::scan::{
    gap, gap_end, gapped, natural, read_natural, run_end, seek, skip_gap, sought, tag, tagged,
};
use crate::text::{chars, same, string_of};
use std::collections::VecDeque;
use vstd::prelude::*;

verus! {

/// One side of an operation: the old worry level or a number.
#[derive(Debug, Clone, Copy, PartialEq, Eq, Structural)]
pub enum Operand {
    Old,
    Number(u32),
}

/// What an operation does with its two sides.
#[derive(Debug, Clone, Copy, PartialEq, Eq, Structural)]
pub enum Operator {
    Add,
    Subtract,
    Multiply,
}

/// How the worry level changes when a monkey inspects an item.
#[derive(Debug, Clone, Copy, PartialEq, Eq, Structural)]
pub struct Operation {
    pub left: Operand,
    pub operator: Operator,
    pub right: Operand,
}

/// A monkey: the worry levels of the items it holds, its operation, the number by which it
/// tests, and the monkeys to which it throws when the test succeeds and when it fails.
#[derive(Debug)]
pub struct Monkey {
    pub items: VecDeque<u32>,
    pub operation: Operation,
    pub test_number: u32,
    pub recipient_success: usize,
    pub recipient_failed: usize,
}

/// What a monkey holds.
pub struct MonkeyView {
    pub items: Seq<u32>,
    pub operation: Operation,
    pub test_number: u32,
    pub recipient_success: usize,
    pub recipient_failed: usize,
}

impl View for Monkey {
    type V = MonkeyView;

    open spec fn view(&self) -> MonkeyView {
        MonkeyView {
            items: self.items@,
            operation: self.operation,
            test_number: self.test_number,
            recipient_success: self.recipient_success,
            recipient_failed: self.recipient_failed,
        }
    }
}

impl Operand {
    /// The number that the side stands for when the old worry level is `old`.
    pub open spec fn value(self, old: u32) -> u32 {
        match self {
            Operand::Old => old,
            Operand::Number(n) => n,
        }
    }
}

impl Operation {
    /// The new worry level for the old one; `None` when it cannot be held.
    pub open spec fn result(self, old: u32) -> Option<u32> {
        let a = self.left.value(old);
        let b = self.right.value(old);
        match self.operator {
            Operator::Add => if a + b <= u32::MAX {
                Some((a + b) as u32)
            } else {
                None
            },
            Operator::Subtract => if a >= b {
                Some((a - b) as u32)
            } else {
                None
            },
            Operator::Multiply => if a * b <= u32::MAX {
                Some((a * b) as u32)
            } else {
                None
            },
        }
    }

    /// Works out the new worry level.
    pub fn apply(&self, old: u32) -> (r: Option<u32>)
        ensures
            r == self.result(old),
    {
        let a = match self.left {
            Operand::Old => old,
            Operand::Number(n) => n,
        };
        let b = match self.right {
            Operand::Old => old,
            Operand::Number(n) => n,
        };
        match self.operator {
            Operator::Add => a.checked_add(b),
            Operator::Subtract => a.checked_sub(b),
            Operator::Multiply => a.checked_mul(b),
        }
    }
}

impl MonkeyView {
    /// The worry level with which an item leaves the monkey: the new level, divided by three
    /// where `divide_worry`.
    pub open spec fn worry(self, value: u32, divide_worry: bool) -> Option<u32> {
        match self.operation.result(value) {
            Some(w) => Some(
                if divide_worry {
                    w / 3
                } else {
                    w
                },
            ),
            None => None,
        }
    }

    /// The monkey to which an item with the worry level goes.
    pub open spec fn target(self, worry_level: u32) -> usize {
        if worry_level % self.test_number == 0 {
            self.recipient_success
        } else {
            self.recipient_failed
        }
    }

    /// The monkey without its first item.
    pub open spec fn less(self) -> MonkeyView {
        MonkeyView { items: self.items.drop_first(), ..self }
    }

    /// The monkey with one more item.
    pub open spec fn more(self, value: u32) -> MonkeyView {
        MonkeyView { items: self.items.push(value), ..self }
    }
}

impl Monkey {
    /// Inspects the first item: takes it from the monkey and tells to which monkey it goes and
    /// with which worry level. `None` when the monkey holds no item or the new worry level
    /// cannot be held; the item is gone then too.
    pub fn play(&mut self, divide_worry: bool) -> (r: Option<(usize, u32)>)
        requires
            old(self).test_number > 0,
        ensures
            old(self)@.items.len() == 0 ==> r is None && final(self)@ == old(self)@,
            old(self)@.items.len() > 0 ==> final(self)@ == old(self)@.less() && r == match old(
                self,
            )@.worry(old(self)@.items[0], divide_worry) {
                Some(w) => Some((old(self)@.target(w), w)),
                None => None,
            },
    {
        let value = match self.items.pop_front() {
            Some(value) => value,
            None => {
                return None;
            },
        };
        let worry_level = match self.operation.apply(value) {
            Some(w) => w,
            None => {
                return None;
            },
        };
        let worry_level = match divide_worry {
            true => worry_level / 3,
            false => worry_level,
        };
        match worry_level % self.test_number == 0 {
            true => Some((self.recipient_success, worry_level)),
            false => Some((self.recipient_failed, worry_level)),
        }
    }

    /// Gives the monkey an item.
    pub fn throw(&mut self, value: u32)
        ensures
            final(self)@ == old(self)@.more(value),
    {
        self.items.push_back(value);
    }
}

/// What the monkeys hold.
pub open spec fn troop(monkeys: Seq<Monkey>) -> Seq<MonkeyView> {
    Seq::new(monkeys.len(), |i: int| monkeys[i]@)
}

/// Whether the monkeys can play: each tests by a number above 0 and throws to other monkeys
/// of the troop, never to itself.
pub open spec fn fit(ms: Seq<MonkeyView>) -> bool {
    forall|i: int|
        0 <= i < ms.len() ==> (#[trigger] ms[i]).test_number > 0 && ms[i].recipient_success < ms.len()
            && ms[i].recipient_failed < ms.len() && ms[i].recipient_success != i
            && ms[i].recipient_failed != i
}

/// The troop and the number of items that monkey `i` has thrown, after the monkey has
/// inspected its items in turn and thrown each to another monkey. The turn ends early with an
/// item whose new worry level cannot be held. `None` when the number cannot be held.
pub open spec fn turn(
    ms: Seq<MonkeyView>,
    i: int,
    count: usize,
    divide_worry: bool,
) -> Option<(Seq<MonkeyView>, usize)>
    decreases ms[i].items.len(),
{
    if i < 0 || i >= ms.len() || ms[i].items.len() == 0 {
        Some((ms, count))
    } else {
        let rest = ms.update(i, ms[i].less());
        match ms[i].worry(ms[i].items[0], divide_worry) {
            None => Some((rest, count)),
            Some(w) => {
                let to = ms[i].target(w) as int;
                if to == i || to >= ms.len() {
                    Some((rest, count))
                } else if count == usize::MAX {
                    None
                } else {
                    turn(
                        rest.update(to, rest[to].more(w)),
                        i,
                        (count + 1) as usize,
                        divide_worry,
                    )
                }
            },
        }
    }
}

/// The troop and the numbers of thrown items after the monkeys from number `i` on have had
/// their turns.
pub open spec fn round(
    ms: Seq<MonkeyView>,
    pass: Seq<usize>,
    i: int,
    divide_worry: bool,
) -> Option<(Seq<MonkeyView>, Seq<usize>)>
    decreases ms.len() - i,
{
    if i < 0 || i >= ms.len() {
        Some((ms, pass))
    } else {
        match turn(ms, i, pass[i], divide_worry) {
            Some((next, count)) => if next.len() == ms.len() {
                round(next, pass.update(i, count), i + 1, divide_worry)
            } else {
                None
            },
            None => None,
        }
    }
}

/// The troop and the numbers of thrown items after `n` more rounds.
pub open spec fn rounds(
    ms: Seq<MonkeyView>,
    pass: Seq<usize>,
    n: nat,
    divide_worry: bool,
) -> Option<(Seq<MonkeyView>, Seq<usize>)>
    decreases n,
{
    if n == 0 {
        Some((ms, pass))
    } else {
        match round(ms, pass, 0, divide_worry) {
            Some((next, counts)) => rounds(next, counts, (n - 1) as nat, divide_worry),
            None => None,
        }
    }
}

/// How many items each monkey has thrown after the rounds; `None` when the monkeys cannot
/// play or a number cannot be held.
pub open spec fn business(ms: Seq<MonkeyView>, iterations: nat, divide_worry: bool) -> Option<Seq<usize>> {
    if !fit(ms) {
        None
    } else {
        match rounds(ms, Seq::new(ms.len(), |i: int| 0usize), iterations, divide_worry) {
            Some((_, pass)) => Some(pass),
            None => None,
        }
    }
}

/// Tells whether the monkeys can play.
pub fn is_fit(monkeys: &Vec<Monkey>) -> (r: bool)
    ensures
        r == fit(troop(monkeys@)),
{
    let mut i: usize = 0;
    while i < monkeys.len()
        invariant
            0 <= i <= monkeys.len(),
            forall|k: int|
                0 <= k < i ==> (#[trigger] troop(monkeys@)[k]).test_number > 0 && troop(
                    monkeys@,
                )[k].recipient_success < monkeys.len() && troop(monkeys@)[k].recipient_failed
                    < monkeys.len() && troop(monkeys@)[k].recipient_success != k && troop(
                    monkeys@,
                )[k].recipient_failed != k,
        decreases monkeys.len() - i,
    {
        let m = &monkeys[i];
        assert(troop(monkeys@)[i as int] == m@);
        if m.test_number == 0 || m.recipient_success >= monkeys.len() || m.recipient_failed
            >= monkeys.len() || m.recipient_success == i || m.recipient_failed == i {
            return false;
        }
        i += 1;
    }
    true
}

/// Lets monkey `i` have its turn.
fn take_turn(monkeys: &mut Vec<Monkey>, i: usize, count: usize, divide_worry: bool) -> (r:
    Option<usize>)
    requires
        fit(troop(old(monkeys)@)),
        i < old(monkeys).len(),
    ensures
        fit(troop(final(monkeys)@)),
        final(monkeys).len() == old(monkeys).len(),
        match turn(troop(old(monkeys)@), i as int, count, divide_worry) {
            Some((next, n)) => r == Some(n) && troop(final(monkeys)@) == next,
            None => r is None,
        },
{
    let ghost goal = turn(troop(monkeys@), i as int, count, divide_worry);
    let mut thrown = count;
    let mut playing = true;
    while playing
        invariant
            fit(troop(monkeys@)),
            monkeys.len() == old(monkeys).len(),
            i < monkeys.len(),
                goal == turn(troop(old(monkeys)@), i as int, count, divide_worry),
            playing ==> goal == turn(troop(monkeys@), i as int, thrown, divide_worry),
            !playing ==> goal == Some((troop(monkeys@), thrown)),
        decreases
                monkeys@[i as int]@.items.len() + if playing {
                    1int
                } else {
                    0int
                },
    {
        let ghost before = troop(monkeys@);
        assert(before[i as int] == monkeys@[i as int]@);
        match monkeys[i].play(divide_worry) {
            Some((recipient, value)) => {
                let ghost rest = troop(monkeys@);
                assert(rest =~= before.update(i as int, before[i as int].less()));
                if thrown == usize::MAX {
                    return None;
                }
                assert(rest[recipient as int] == monkeys@[recipient as int]@);
                monkeys[recipient].throw(value);
                assert(troop(monkeys@) =~= rest.update(
                    recipient as int,
                    rest[recipient as int].more(value),
                ));
                assert(fit(troop(monkeys@))) by {
                    assert forall|k: int| 0 <= k < monkeys.len() implies (#[trigger] troop(
                        monkeys@,
                    )[k]).test_number == before[k].test_number && troop(
                        monkeys@,
                    )[k].recipient_success == before[k].recipient_success && troop(
                        monkeys@,
                    )[k].recipient_failed == before[k].recipient_failed by {}
                }
                thrown += 1;
            },
            None => {
                let ghost rest = troop(monkeys@);
                proof {
                    if before[i as int].items.len() > 0 {
                        assert(rest =~= before.update(i as int, before[i as int].less()));
                    } else {
                        assert(rest =~= before);
                    }
                }
                assert(fit(rest)) by {
                    assert forall|k: int| 0 <= k < monkeys.len() implies (#[trigger] rest[k]).test_number
                        == before[k].test_number && rest[k].recipient_success
                        == before[k].recipient_success && rest[k].recipient_failed
                        == before[k].recipient_failed by {}
                }
                playing = false;
            },
        }
    }
    Some(thrown)
}

/// Lets the monkeys play the rounds and counts the items that each throws, if they can play.
pub fn try_monkey_play(iterations: usize, monkeys: Vec<Monkey>, divide_worry: bool) -> (r: Option<
    Vec<usize>,
>)
    ensures
        r is Some == business(troop(monkeys@), iterations as nat, divide_worry) is Some,
        r is Some ==> r->0@ == business(troop(monkeys@), iterations as nat, divide_worry)->0,
{
    let mut players = monkeys;
    let ghost start = troop(players@);
    if !is_fit(&players) {
        return None;
    }
    let mut pass: Vec<usize> = Vec::new();
    let mut k: usize = 0;
    while k < players.len()
        invariant
            0 <= k <= players.len(),
            pass.len() == k,
            forall|j: int| 0 <= j < k ==> #[trigger] pass[j] == 0,
        decreases players.len() - k,
    {
        pass.push(0);
        k += 1;
    }
    assert(pass@ =~= Seq::new(start.len(), |i: int| 0usize));
    let ghost goal = rounds(start, pass@, iterations as nat, divide_worry);
    let mut n: usize = 0;
    while n < iterations
        invariant
            0 <= n <= iterations,
            fit(troop(players@)),
            pass.len() == players.len(),
            business(start, iterations as nat, divide_worry) == match goal {
                Some((_, p)) => Some(p),
                None => None,
            },
            start == troop(monkeys@),
            goal == rounds(troop(players@), pass@, (iterations - n) as nat, divide_worry),
        decreases iterations - n,
    {
        let ghost round_goal = round(troop(players@), pass@, 0, divide_worry);
        let mut i: usize = 0;
        while i < players.len()
            invariant
                0 <= i <= players.len(),
                n < iterations,
                fit(troop(players@)),
                    pass.len() == players.len(),
                business(start, iterations as nat, divide_worry) == match goal {
                    Some((_, p)) => Some(p),
                    None => None,
                },
                start == troop(monkeys@),
                goal == match round_goal {
                    Some((next, counts)) => rounds(
                        next,
                        counts,
                        (iterations - n - 1) as nat,
                        divide_worry,
                    ),
                    None => None,
                },
                round_goal == round(troop(players@), pass@, i as int, divide_worry),
            decreases players.len() - i,
        {
            match take_turn(&mut players, i, pass[i], divide_worry) {
                Some(count) => {
                    pass[i] = count;
                },
                None => {
                    return None;
                },
            }
            i += 1;
        }
        n += 1;
    }
    Some(pass)
}

/// Lets the monkeys play the rounds and counts the items that each throws.
pub fn monkey_play(iterations: usize, monkeys: Vec<Monkey>, divide_worry: bool) -> (r: Vec<usize>)
    requires
        business(troop(monkeys@), iterations as nat, divide_worry) is Some,
    ensures
        r@ == business(troop(monkeys@), iterations as nat, divide_worry)->0,
{
    try_monkey_play(iterations, monkeys, divide_worry).unwrap()
}

/// The side of an operation that a text writes: the old worry level for `old`, else the
/// number that the text writes; `None` when it writes none that can be held.
pub open spec fn operand_of(text: Seq<char>) -> Option<Operand> {
    if text == "old"@ {
        Some(Operand::Old)
    } else {
        match u32_of(text) {
            Some(n) => Some(Operand::Number(n)),
            None => None,
        }
    }
}

/// Reads a side of an operation.
pub fn map_operand(operand: &str) -> (r: Option<Operand>)
    ensures
        r == operand_of(operand@),
{
    if same(operand, "old") {
        Some(Operand::Old)
    } else {
        match parse_u32(operand) {
            Some(number) => Some(Operand::Number(number)),
            None => None,
        }
    }
}

/// The text of a side of an operation at position `from`, the word `old` or digits, and the
/// position after it.
pub open spec fn side_at(s: Seq<char>, from: int) -> Option<(Seq<char>, int)> {
    match tagged(s, from, "old"@) {
        Some(a) => Some(("old"@, a)),
        None => if 0 <= from < run_end(s, from) <= s.len() {
            Some((s.subrange(from, run_end(s, from)), run_end(s, from)))
        } else {
            None
        },
    }
}

/// The operation written at position `from` and the position after it. The inner `None`
/// stands for text that writes no operation, the outer one for an operation with a number
/// that cannot be held or with another sign than `+`, `-` or `*`.
pub open spec fn operation_at(s: Seq<char>, from: int) -> Option<Option<(Operation, int)>> {
    let left = match tagged(s, from, "new = "@) {
        Some(a) => side_at(s, a),
        None => None,
    };
    let sign = match left {
        Some((_, b)) => if gap_end(s, b) < s.len() {
            Some(gap_end(s, b))
        } else {
            None
        },
        None => None,
    };
    let right = match sign {
        Some(c) => side_at(s, gap_end(s, c + 1)),
        None => None,
    };
    match right {
        None => Some(None),
        Some((text, to)) => match (operand_of(left.unwrap().0), operand_of(text)) {
            (Some(l), Some(r)) => if s[sign.unwrap()] == '+' {
                Some(Some((Operation { left: l, operator: Operator::Add, right: r }, to)))
            } else if s[sign.unwrap()] == '-' {
                Some(Some((Operation { left: l, operator: Operator::Subtract, right: r }, to)))
            } else if s[sign.unwrap()] == '*' {
                Some(Some((Operation { left: l, operator: Operator::Multiply, right: r }, to)))
            } else {
                None
            },
            _ => None,
        },
    }
}

/// The position after a line feed at position `from`.
pub open spec fn fed(s: Seq<char>, from: int) -> Option<int> {
    if 0 <= from < s.len() && s[from] == '\n' {
        Some(from + 1)
    } else {
        None
    }
}

/// The position after `: throw to monkey ` and the number behind it, found behind the first
/// colon with a blank from position `from` on, and that number.
pub open spec fn throw_at(s: Seq<char>, from: int) -> Option<(usize, int)> {
    let word = match sought(s, from, ": "@) {
        Some(a) => tagged(s, a, ": throw to monkey "@),
        None => None,
    };
    match word {
        Some(b) => match natural(s, b, u8::MAX as int) {
            Some((n, to)) => Some((n as usize, to)),
            None => None,
        },
        None => None,
    }
}

/// The test written at position `from`: the number to divide by and the two monkeys to throw
/// to, and the position after it.
pub open spec fn test_at(s: Seq<char>, from: int) -> Option<((u32, usize, usize), int)> {
    let divisor = match tagged(s, from, "divisible by "@) {
        Some(a) => natural(s, a, u32::MAX as int),
        None => None,
    };
    let first = match divisor {
        Some((_, b)) => match fed(s, b) {
            Some(c) => throw_at(s, c),
            None => None,
        },
        None => None,
    };
    let second = match first {
        Some((_, d)) => match fed(s, d) {
            Some(e) => throw_at(s, e),
            None => None,
        },
        None => None,
    };
    match second {
        Some((failed, to)) => Some(((divisor.unwrap().0 as u32, first.unwrap().0, failed), to)),
        None => None,
    }
}

/// The numbers that follow at position `from`, each after a comma and a blank, added to
/// `items`, and the position after them.
pub open spec fn more_items(s: Seq<char>, from: int, items: Seq<u32>) -> (Seq<u32>, int)
    decreases s.len() - from,
{
    let next = match tagged(s, from, ", "@) {
        Some(a) => natural(s, a, u32::MAX as int),
        None => None,
    };
    match next {
        Some((n, to)) if from < to <= s.len() => more_items(s, to, items.push(n as u32)),
        _ => (items, from),
    }
}

/// The numbers written at position `from` with commas and blanks between them, and the
/// position after them; there may be none.
pub open spec fn items_at(s: Seq<char>, from: int) -> (Seq<u32>, int) {
    match natural(s, from, u32::MAX as int) {
        Some((n, to)) => more_items(s, to, seq![n as u32]),
        None => (Seq::empty(), from),
    }
}

/// The position after the line feed and the white space before `word`, and after `word`,
/// which must follow them at position `from`.
pub open spec fn heading(s: Seq<char>, from: int, word: Seq<char>) -> Option<int> {
    match fed(s, from) {
        Some(a) => match gapped(s, a) {
            Some(b) => tagged(s, b, word),
            None => None,
        },
        None => None,
    }
}

/// The monkey written at position `from` and the position after it. The inner `None` stands
/// for text that writes no monkey, the outer one for an operation that cannot be used.
pub open spec fn monkey_at(s: Seq<char>, from: int) -> Option<Option<(MonkeyView, int)>> {
    let number = match tagged(s, from, "Monkey "@) {
        Some(a) => natural(s, a, u32::MAX as int),
        None => None,
    };
    let items = match number {
        Some((_, b)) => match tagged(s, b, ":"@) {
            Some(c) => match heading(s, c, "Starting items: "@) {
                Some(d) => Some(items_at(s, d)),
                None => None,
            },
            None => None,
        },
        None => None,
    };
    let operation = match items {
        Some((_, e)) => match heading(s, e, "Operation: "@) {
            Some(f) => operation_at(s, f),
            None => Some(None),
        },
        None => Some(None),
    };
    match operation {
        None => None,
        Some(None) => Some(None),
        Some(Some((op, g))) => match heading(s, g, "Test: "@) {
            Some(h) => match test_at(s, h) {
                Some((test, to)) => Some(
                    Some(
                        (
                            MonkeyView {
                                items: items.unwrap().0,
                                operation: op,
                                test_number: test.0,
                                recipient_success: test.1,
                                recipient_failed: test.2,
                            },
                            to,
                        ),
                    ),
                ),
                None => Some(None),
            },
            None => Some(None),
        },
    }
}

/// The monkeys that follow at position `from`, each after white space, added to `monkeys`;
/// `None` when one has an operation that cannot be used.
pub open spec fn more_monkeys(s: Seq<char>, from: int, monkeys: Seq<MonkeyView>) -> Option<
    Seq<MonkeyView>,
>
    decreases s.len() - from,
{
    match gapped(s, from) {
        Some(a) => match monkey_at(s, a) {
            None => None,
            Some(None) => Some(monkeys),
            Some(Some((monkey, to))) => if from < to <= s.len() {
                more_monkeys(s, to, monkeys.push(monkey))
            } else {
                Some(monkeys)
            },
        },
        None => Some(monkeys),
    }
}

/// The monkeys that `input` writes, up to the first place where none is written; `None` when
/// one has an operation that cannot be used.
pub open spec fn monkeys_of(input: Seq<char>) -> Option<Seq<MonkeyView>> {
    match monkey_at(input, 0) {
        None => None,
        Some(None) => Some(Seq::empty()),
        Some(Some((monkey, to))) => more_monkeys(input, to, seq![monkey]),
    }
}

fn parse_side(v: &Vec<char>, from: usize) -> (r: Option<(String, usize)>)
    ensures
        r is Some == side_at(v@, from as int) is Some,
        r matches Some(p) ==> side_at(v@, from as int) == Some((p.0@, p.1 as int)),
        r matches Some(p) ==> from < p.1 <= v.len(),
{
    proof {
        reveal_strlit("old");
    }
    match tag(v, from, "old") {
        Some(a) => {
            let text = string_of(v, from, a);
            assert(text@ =~= "old"@);
            Some((text, a))
        },
        None => {
            let to = digits_until(v, from);
            if to > from {
                Some((string_of(v, from, to), to))
            } else {
                None
            }
        },
    }
}

/// The position after the digits at position `from`.
fn digits_until(v: &Vec<char>, from: usize) -> (to: usize)
    ensures
        to == run_end(v@, from as int) || (from > v.len() && to == from),
        from <= to,
        from <= v.len() ==> to <= v.len(),
{
    if from >= v.len() {
        return from;
    }
    let mut to: usize = from;
    while to < v.len() && crate::number::digit_in(v[to], 10)
        invariant
            from <= to <= v.len(),
            forall|j: int| from <= j < to ==> crate::number::is_digit(v@[j], 10),
        decreases v.len() - to,
    {
        to += 1;
    }
    proof {
        crate::scan::lemma_run_end(v@, from as int, to as int);
    }
    to
}

fn parse_operation(v: &Vec<char>, from: usize) -> (r: Option<Option<(Operation, usize)>>)
    ensures
        r is Some == operation_at(v@, from as int) is Some,
        r matches Some(q) ==> (q is Some == operation_at(v@, from as int).unwrap() is Some),
        r matches Some(Some(p)) ==> operation_at(v@, from as int) == Some(Some((p.0, p.1 as int)))
            && from < p.1 <= v.len(),
{
    let a = match tag(v, from, "new = ") {
        Some(a) => a,
        None => {
            return Some(None);
        },
    };
    let (operand_1_str, b) = match parse_side(v, a) {
        Some(p) => p,
        None => {
            return Some(None);
        },
    };
    let c = skip_gap(v, b);
    if c >= v.len() {
        return Some(None);
    }
    let operator_str = v[c];
    let d = skip_gap(v, c + 1);
    let (operand_2_str, to) = match parse_side(v, d) {
        Some(p) => p,
        None => {
            return Some(None);
        },
    };
    let operand_1 = map_operand(operand_1_str.as_str());
    let operand_2 = map_operand(operand_2_str.as_str());
    match (operand_1, operand_2) {
        (Some(left), Some(right)) => {
            if operator_str == '+' {
                Some(Some((Operation { left, operator: Operator::Add, right }, to)))
            } else if operator_str == '-' {
                Some(Some((Operation { left, operator: Operator::Subtract, right }, to)))
            } else if operator_str == '*' {
                Some(Some((Operation { left, operator: Operator::Multiply, right }, to)))
            } else {
                None
            }
        },
        _ => None,
    }
}

fn newline(v: &Vec<char>, from: usize) -> (r: Option<usize>)
    ensures
        r == match fed(v@, from as int) {
            Some(a) => Some(a as usize),
            None => None,
        },
        r is Some ==> r->0 == from + 1 && r->0 <= v.len(),
{
    if from < v.len() && v[from] == '\n' {
        Some(from + 1)
    } else {
        None
    }
}

fn parse_throw(v: &Vec<char>, from: usize) -> (r: Option<(usize, usize)>)
    ensures
        r is Some == throw_at(v@, from as int) is Some,
        r matches Some(p) ==> throw_at(v@, from as int) == Some((p.0, p.1 as int)),
        r matches Some(p) ==> from < p.1 <= v.len(),
{
    proof {
        reveal_strlit(": ");
    }
    let a = match seek(v, from, ": ") {
        Some(a) => a,
        None => {
            return None;
        },
    };
    let b = match tag(v, a, ": throw to monkey ") {
        Some(b) => b,
        None => {
            return None;
        },
    };
    match read_natural(v, b, u8::MAX as u64) {
        Some((n, to)) => Some((n as usize, to)),
        None => None,
    }
}

fn parse_test(v: &Vec<char>, from: usize) -> (r: Option<((u32, usize, usize), usize)>)
    ensures
        r is Some == test_at(v@, from as int) is Some,
        r matches Some(p) ==> test_at(v@, from as int) == Some((p.0, p.1 as int)),
        r matches Some(p) ==> from < p.1 <= v.len(),
{
    let a = match tag(v, from, "divisible by ") {
        Some(a) => a,
        None => {
            return None;
        },
    };
    let (divisor, b) = match read_natural(v, a, u32::MAX as u64) {
        Some(p) => (p.0 as u32, p.1),
        None => {
            return None;
        },
    };
    let c = match newline(v, b) {
        Some(c) => c,
        None => {
            return None;
        },
    };
    let (monkey_1, d) = match parse_throw(v, c) {
        Some(p) => p,
        None => {
            return None;
        },
    };
    let e = match newline(v, d) {
        Some(e) => e,
        None => {
            return None;
        },
    };
    let (monkey_2, to) = match parse_throw(v, e) {
        Some(p) => p,
        None => {
            return None;
        },
    };
    Some(((divisor, monkey_1, monkey_2), to))
}

fn parse_items(v: &Vec<char>, from: usize) -> (r: (VecDeque<u32>, usize))
    requires
        from <= v.len(),
    ensures
        (r.0@, r.1 as int) == items_at(v@, from as int),
        from <= r.1 <= v.len(),
{
    let mut items: VecDeque<u32> = VecDeque::new();
    let (first, start) = match read_natural(v, from, u32::MAX as u64) {
        Some(p) => (p.0 as u32, p.1),
        None => {
            assert(items@ =~= Seq::empty());
            return (items, from);
        },
    };
    items.push_back(first);
    assert(items@ =~= seq![first]);
    let mut at: usize = start;
    let mut more = true;
    while more
        invariant
            from < at <= v.len(),
            more ==> more_items(v@, start as int, seq![first]) == more_items(v@, at as int, items@),
            !more ==> more_items(v@, start as int, seq![first]) == (items@, at as int),
        decreases
                v.len() - at + if more {
                    1int
                } else {
                    0int
                },
    {
        let next = match tag(v, at, ", ") {
            Some(a) => read_natural(v, a, u32::MAX as u64),
            None => None,
        };
        match next {
            Some((n, to)) => {
                items.push_back(n as u32);
                at = to;
            },
            None => {
                more = false;
            },
        }
    }
    (items, at)
}

fn parse_heading(v: &Vec<char>, from: usize, word: &str) -> (r: Option<usize>)
    ensures
        r is Some == heading(v@, from as int, word@) is Some,
        r is Some ==> r->0 == heading(v@, from as int, word@)->0 && from < r->0 <= v.len(),
{
    let a = match newline(v, from) {
        Some(a) => a,
        None => {
            return None;
        },
    };
    let b = match gap(v, a) {
        Some(b) => b,
        None => {
            return None;
        },
    };
    tag(v, b, word)
}

fn parse_monkey(v: &Vec<char>, from: usize) -> (r: Option<Option<(Monkey, usize)>>)
    ensures
        r is Some == monkey_at(v@, from as int) is Some,
        r matches Some(q) ==> (q is Some == monkey_at(v@, from as int).unwrap() is Some),
        r matches Some(Some(p)) ==> monkey_at(v@, from as int) == Some(Some((p.0@, p.1 as int)))
            && from < p.1 <= v.len(),
{
    let a = match tag(v, from, "Monkey ") {
        Some(a) => a,
        None => {
            return Some(None);
        },
    };
    let (_, b) = match read_natural(v, a, u32::MAX as u64) {
        Some(p) => p,
        None => {
            return Some(None);
        },
    };
    let c = match tag(v, b, ":") {
        Some(c) => c,
        None => {
            return Some(None);
        },
    };
    let d = match parse_heading(v, c, "Starting items: ") {
        Some(d) => d,
        None => {
            return Some(None);
        },
    };
    let (items, e) = parse_items(v, d);
    let f = match parse_heading(v, e, "Operation: ") {
        Some(f) => f,
        None => {
            return Some(None);
        },
    };
    let (operation, g) = match parse_operation(v, f) {
        None => {
            return None;
        },
        Some(None) => {
            return Some(None);
        },
        Some(Some(p)) => p,
    };
    let h = match parse_heading(v, g, "Test: ") {
        Some(h) => h,
        None => {
            return Some(None);
        },
    };
    let ((test_number, recipient_success, recipient_failed), to) = match parse_test(v, h) {
        Some(p) => p,
        None => {
            return Some(None);
        },
    };
    Some(Some((Monkey { items, operation, test_number, recipient_success, recipient_failed }, to)))
}

/// Reads the monkeys, if each has an operation that can be used.
pub fn try_parse_input(input: &str) -> (r: Option<Vec<Monkey>>)
    ensures
        r is Some == monkeys_of(input@) is Some,
        r is Some ==> troop(r->0@) == monkeys_of(input@)->0,
{
    let v = chars(input);
    let mut monkeys: Vec<Monkey> = Vec::new();
    let (first, start) = match parse_monkey(&v, 0) {
        None => {
            return None;
        },
        Some(None) => {
            assert(troop(monkeys@) =~= Seq::empty());
            return Some(monkeys);
        },
        Some(Some(p)) => p,
    };
    let ghost head = first@;
    monkeys.push(first);
    assert(troop(monkeys@) =~= seq![head]);
    let mut at: usize = start;
    let mut more = true;
    while more
        invariant
            v@ == input@,
            0 < at <= v.len(),
            monkeys_of(input@) == more_monkeys(v@, start as int, seq![head]),
            more ==> more_monkeys(v@, start as int, seq![head]) == more_monkeys(
                v@,
                at as int,
                troop(monkeys@),
            ),
            !more ==> more_monkeys(v@, start as int, seq![head]) == Some(troop(monkeys@)),
        decreases
                v.len() - at + if more {
                    1int
                } else {
                    0int
                },
    {
        match gap(&v, at) {
            Some(a) => match parse_monkey(&v, a) {
                None => {
                    return None;
                },
                Some(None) => {
                    more = false;
                },
                Some(Some((monkey, to))) => {
                    let ghost before = troop(monkeys@);
                    let ghost added = monkey@;
                    monkeys.push(monkey);
                    assert(troop(monkeys@) =~= before.push(added));
                    at = to;
                },
            },
            None => {
                more = false;
            },
        }
    }
    Some(monkeys)
}

/// Reads the monkeys.
pub fn parse_input(input: &str) -> (r: Vec<Monkey>)
    requires
        monkeys_of(input@) is Some,
    ensures
        troop(r@) == monkeys_of(input@)->0,
{
    try_parse_input(input).unwrap()
}

/// The two largest of the first `n` numbers, the larger one first; 0 stands in where there are
/// fewer.
pub open spec fn two_largest(pass: Seq<usize>, n: int) -> (usize, usize)
    decreases n,
{
    if n <= 0 {
        (0, 0)
    } else {
        let (a, b) = two_largest(pass, n - 1);
        if pass[n - 1] > a {
            (pass[n - 1], a)
        } else if pass[n - 1] > b {
            (a, pass[n - 1])
        } else {
            (a, b)
        }
    }
}

/// The product of the two largest numbers of thrown items after the rounds; `None` when the
/// monkeys cannot be read or cannot play, there are fewer than two, or a number cannot be held.
pub open spec fn answer(input: Seq<char>, iterations: nat, divide_worry: bool) -> Option<int> {
    match monkeys_of(input) {
        Some(ms) => match business(ms, iterations, divide_worry) {
            Some(pass) => {
                let (a, b) = two_largest(pass, pass.len() as int);
                if pass.len() >= 2 && a * b <= usize::MAX {
                    Some(a * b)
                } else {
                    None
                }
            },
            None => None,
        },
        None => None,
    }
}

fn level(input: &str, iterations: usize, divide_worry: bool) -> (r: Option<String>)
    ensures
        r is Some == answer(input@, iterations as nat, divide_worry) is Some,
        r is Some ==> r->0@ == decimal(answer(input@, iterations as nat, divide_worry)->0),
{
    let monkeys = match try_parse_input(input) {
        Some(monkeys) => monkeys,
        None => {
            return None;
        },
    };
    let pass = match try_monkey_play(iterations, monkeys, divide_worry) {
        Some(pass) => pass,
        None => {
            return None;
        },
    };
    if pass.len() < 2 {
        return None;
    }
    let mut a: usize = 0;
    let mut b: usize = 0;
    let mut i: usize = 0;
    while i < pass.len()
        invariant
            0 <= i <= pass.len(),
            (a, b) == two_largest(pass@, i as int),
        decreases pass.len() - i,
    {
        if pass[i] > a {
            b = a;
            a = pass[i];
        } else if pass[i] > b {
            b = pass[i];
        }
        i += 1;
    }
    assert(0 <= a * b) by (nonlinear_arith)
        requires
            0 <= a,
            0 <= b,
    ;
    match a.checked_mul(b) {
        Some(product) => Some(format_u64(product as u64)),
        None => None,
    }
}

/// The level of monkey business after 20 rounds with the worry divided, if it can be worked
/// out.
pub fn try_puzzle_1(input: &str) -> (r: Option<String>)
    ensures
        r is Some == answer(input@, 20, true) is Some,
        r is Some ==> r->0@ == decimal(answer(input@, 20, true)->0),
{
    level(input, 20, true)
}

/// The level of monkey business after 20 rounds with the worry divided.
pub fn puzzle_1(input: &str) -> (r: String)
    requires
        answer(input@, 20, true) is Some,
    ensures
        r@ == decimal(answer(input@, 20, true)->0),
{
    level(input, 20, true).unwrap()
}

/// The level of monkey business after 100 rounds with the worry never divided, if it can be
/// worked out.
pub fn try_puzzle_2(input: &str) -> (r: Option<String>)
    ensures
        r is Some == answer(input@, 100, false) is Some,
        r is Some ==> r->0@ == decimal(answer(input@, 100, false)->0),
{
    level(input, 100, false)
}

/// The level of monkey business after 100 rounds with the worry never divided.
pub fn puzzle_2(input: &str) -> (r: String)
    requires
        answer(input@, 100, false) is Some,
    ensures
        r@ == decimal(answer(input@, 100, false)->0),
{
    level(input, 100, false).unwrap()
}

} // verus!
