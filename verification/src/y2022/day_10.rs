//! Cathode-ray tube: a processor with one register, the strength of its signal and the picture
//! that it draws.

use crate::number::{format_i64, signed_decimal};
use crate::scan::{integer, read_integer, tag, tagged};
use crate::text::{chars, occurs_at};
use itertools::Itertools;
use std::collections::BTreeMap;
use vstd::arithmetic::div_mod::lemma_fundamental_div_mod_converse;
use vstd::prelude::*;

verus! {

broadcast use vstd::laws_cmp::group_laws_cmp;

/// What the processor can be told to do.
#[derive(Debug, Clone, Copy, PartialEq, Eq, Structural)]
pub enum Instruction {
    Noop,
    Addx(i32),
}

/// The processor: the number of cycles that have passed, and its register.
pub struct CPU {
    pub counter: usize,
    pub register_x: i32,
}

/// Whether `c` is a letter from `a` to `z` or from `A` to `Z`.
pub open spec fn is_alpha(c: char) -> bool {
    ('a' <= c <= 'z') || ('A' <= c <= 'Z')
}

/// The position after the letters that stand in `s` from position `from` on.
pub open spec fn word_end(s: Seq<char>, from: int) -> int
    decreases s.len() - from,
{
    if from < 0 || from >= s.len() || !is_alpha(s[from]) {
        from
    } else {
        word_end(s, from + 1)
    }
}

/// The position after the blanks and tabs that stand in `s` from position `from` on.
pub open spec fn blank_end(s: Seq<char>, from: int) -> int
    decreases s.len() - from,
{
    if from < 0 || from >= s.len() || !(s[from] == ' ' || s[from] == '\t') {
        from
    } else {
        blank_end(s, from + 1)
    }
}

/// The instruction written at position `from` and the position after it: the word `noop`,
/// or the word `addx` with blanks or tabs and a number behind it. The inner `None` stands for
/// text that writes no instruction; the outer one for another word, or for `addx` with
/// nothing behind it or behind its blanks.
pub open spec fn instruction_at(s: Seq<char>, from: int) -> Option<Option<(Instruction, int)>> {
    let end = word_end(s, from);
    if !(0 <= from < end <= s.len()) {
        Some(None)
    } else if s.subrange(from, end) == "noop"@ {
        Some(Some((Instruction::Noop, end)))
    } else if s.subrange(from, end) == "addx"@ {
        let after = blank_end(s, end);
        if after >= s.len() {
            None
        } else if after == end {
            Some(None)
        } else {
            match integer(s, after, i32::MAX as int) {
                Some((x, to)) => Some(Some((Instruction::Addx(x as i32), to))),
                None => Some(None),
            }
        }
    } else {
        None
    }
}

/// The instructions that follow at position `from`, each after a line feed, added to
/// `list`; `None` when one cannot be made out.
pub open spec fn more_instructions(s: Seq<char>, from: int, list: Seq<Instruction>) -> Option<
    Seq<Instruction>,
>
    decreases s.len() - from,
{
    if 0 <= from < s.len() && s[from] == '\n' {
        match instruction_at(s, from + 1) {
            None => None,
            Some(None) => Some(list),
            Some(Some((instruction, to))) => if from < to <= s.len() {
                more_instructions(s, to, list.push(instruction))
            } else {
                Some(list)
            },
        }
    } else {
        Some(list)
    }
}

/// The instructions that `input` writes, one in each line, up to the first line that writes
/// none; `None` when one cannot be made out.
pub open spec fn program_of(input: Seq<char>) -> Option<Seq<Instruction>> {
    match instruction_at(input, 0) {
        None => None,
        Some(None) => Some(Seq::empty()),
        Some(Some((instruction, to))) => more_instructions(input, to, seq![instruction]),
    }
}

fn letter(c: char) -> (r: bool)
    ensures
        r == is_alpha(c),
{
    ('a' <= c && c <= 'z') || ('A' <= c && c <= 'Z')
}

proof fn lemma_word_end(s: Seq<char>, from: int, k: int)
    requires
        0 <= from <= k <= s.len(),
        forall|j: int| from <= j < k ==> is_alpha(s[j]),
        k < s.len() ==> !is_alpha(s[k]),
    ensures
        word_end(s, from) == k,
    decreases k - from,
{
    if from < k {
        lemma_word_end(s, from + 1, k);
    }
}

proof fn lemma_blank_end(s: Seq<char>, from: int, k: int)
    requires
        0 <= from <= k <= s.len(),
        forall|j: int| from <= j < k ==> s[j] == ' ' || s[j] == '\t',
        k < s.len() ==> !(s[k] == ' ' || s[k] == '\t'),
    ensures
        blank_end(s, from) == k,
    decreases k - from,
{
    if from < k {
        lemma_blank_end(s, from + 1, k);
    }
}

impl Instruction {
    /// Reads an instruction at position `from`.
    pub fn parser(v: &Vec<char>, from: usize) -> (r: Option<Option<(Instruction, usize)>>)
        ensures
            r is Some == instruction_at(v@, from as int) is Some,
            r matches Some(q) ==> (q is Some == instruction_at(v@, from as int).unwrap() is Some),
            r matches Some(Some(p)) ==> instruction_at(v@, from as int) == Some(
                Some((p.0, p.1 as int)),
            ) && from < p.1 <= v.len(),
    {
        if from >= v.len() {
            return Some(None);
        }
        let mut end: usize = from;
        while end < v.len() && letter(v[end])
            invariant
                from <= end <= v.len(),
                forall|j: int| from <= j < end ==> is_alpha(v@[j]),
            decreases v.len() - end,
        {
            end += 1;
        }
        proof {
            lemma_word_end(v@, from as int, end as int);
        }
        if end == from {
            return Some(None);
        }
        let ghost word = v@.subrange(from as int, end as int);
        let noop = chars("noop");
        if end - from == noop.len() && occurs_at(v, &noop, from) {
            return Some(Some((Instruction::Noop, end)));
        }
        let addx = chars("addx");
        if end - from == addx.len() && occurs_at(v, &addx, from) {
            let mut after: usize = end;
            while after < v.len() && (v[after] == ' ' || v[after] == '\t')
                invariant
                    end <= after <= v.len(),
                    forall|j: int| end <= j < after ==> v@[j] == ' ' || v@[j] == '\t',
                decreases v.len() - after,
            {
                after += 1;
            }
            proof {
                lemma_blank_end(v@, end as int, after as int);
            }
            if after >= v.len() {
                return None;
            }
            if after == end {
                return Some(None);
            }
            return match read_integer(v, after, i32::MAX as u64) {
                Some((x, to)) => Some(Some((Instruction::Addx(x as i32), to))),
                None => Some(None),
            };
        }
        None
    }
}

/// Reads the instructions, if each can be made out.
pub fn try_parse_input(input: &str) -> (r: Option<Vec<Instruction>>)
    ensures
        r is Some == program_of(input@) is Some,
        r is Some ==> r->0@ == program_of(input@)->0,
{
    let v = chars(input);
    let mut output: Vec<Instruction> = Vec::new();
    let (first, start) = match Instruction::parser(&v, 0) {
        None => {
            return None;
        },
        Some(None) => {
            return Some(output);
        },
        Some(Some(p)) => p,
    };
    output.push(first);
    assert(output@ =~= seq![first]);
    let mut at: usize = start;
    let mut more = true;
    while more
        invariant
            v@ == input@,
            0 < at <= v.len(),
            program_of(input@) == more_instructions(v@, start as int, seq![first]),
            more ==> more_instructions(v@, start as int, seq![first]) == more_instructions(
                v@,
                at as int,
                output@,
            ),
            !more ==> more_instructions(v@, start as int, seq![first]) == Some(output@),
        decreases
                v.len() - at + if more {
                    1int
                } else {
                    0int
                },
    {
        if at < v.len() && v[at] == '\n' {
            match Instruction::parser(&v, at + 1) {
                None => {
                    return None;
                },
                Some(None) => {
                    more = false;
                },
                Some(Some((instruction, to))) => {
                    output.push(instruction);
                    at = to;
                },
            }
        } else {
            more = false;
        }
    }
    Some(output)
}

/// Reads the instructions.
pub fn parse_input(input: &str) -> (r: Vec<Instruction>)
    requires
        program_of(input@) is Some,
    ensures
        r@ == program_of(input@)->0,
{
    try_parse_input(input).unwrap()
}

/// The cycles that an instruction takes.
pub open spec fn cost(instruction: Instruction) -> int {
    match instruction {
        Instruction::Noop => 1,
        Instruction::Addx(_) => 2,
    }
}

/// What an instruction adds to the register.
pub open spec fn gain(instruction: Instruction) -> int {
    match instruction {
        Instruction::Noop => 0,
        Instruction::Addx(x) => x as int,
    }
}

impl CPU {
    /// A processor before its first cycle, with 1 in its register.
    pub fn new() -> (r: Self)
        ensures
            r.counter == 0,
            r.register_x == 1,
    {
        CPU { counter: 0, register_x: 1 }
    }

    /// Carries out an instruction: `noop` takes one cycle, `addx` two and then adds its
    /// number to the register.
    pub fn execute(&mut self, instruction: Instruction)
        requires
            old(self).counter + cost(instruction) <= usize::MAX,
            i32::MIN <= old(self).register_x + gain(instruction) <= i32::MAX,
        ensures
            final(self).counter == old(self).counter + cost(instruction),
            final(self).register_x == old(self).register_x + gain(instruction),
    {
        match instruction {
            Instruction::Noop => self.cycle(),
            Instruction::Addx(x) => {
                self.cycle();
                self.cycle();
                self.register_x += x;
            },
        }
    }

    /// Lets one cycle pass.
    pub fn cycle(&mut self)
        requires
            old(self).counter < usize::MAX,
        ensures
            final(self).counter == old(self).counter + 1,
            final(self).register_x == old(self).register_x,
    {
        self.counter += 1;
    }
}

/// Whether `top` is the last cycle for which the history holds a value.
pub open spec fn is_top(history: Map<usize, i32>, top: usize) -> bool {
    history.dom().contains(top) && forall|k: usize| history.dom().contains(k) ==> k <= top
}

/// The value of the register in cycle `i`: the value that the history holds for the last
/// cycle up to `i`, and 0 before the first such cycle.
pub open spec fn held(history: Map<usize, i32>, i: int) -> i32
    decreases i,
{
    if 0 <= i <= usize::MAX && history.dom().contains(i as usize) {
        history[i as usize]
    } else if i <= 0 {
        0
    } else {
        held(history, i - 1)
    }
}

/// Whether `values` holds the value of the register in each cycle up to the last for which
/// the history holds one; no values where the history holds none.
pub open spec fn completes(history: Map<usize, i32>, values: Seq<i32>) -> bool {
    &&& (forall|k: usize| !history.dom().contains(k)) ==> values.len() == 0
    &&& forall|top: usize| is_top(history, top) ==> values.len() == top + 1
    &&& forall|i: int| 0 <= i < values.len() ==> #[trigger] values[i] == held(history, i)
}

/// The values of the register cycle by cycle.
pub open spec fn completed(history: Map<usize, i32>) -> Seq<i32> {
    choose|values: Seq<i32>| completes(history, values)
}

/// The last cycle for which the history holds a value.
fn last_cycle(history: &BTreeMap<usize, i32>) -> (r: Option<usize>)
    ensures
        r is None ==> forall|k: usize| !history@.dom().contains(k),
        r is Some ==> is_top(history@, r->0),
{
    let mut top: Option<usize> = None;
    for entry in it: history.iter()
        invariant
            it.seq().len() == history@.dom().len(),
            forall|j: int|
                0 <= j < it.seq().len() ==> history@.contains_key(*(#[trigger] it.seq()[j]).0),
            forall|k: usize| #[trigger]
                history@.contains_key(k) ==> it.seq().contains((&k, &history@[k])),
            top is None ==> it.index() == 0,
            top is Some ==> history@.dom().contains(top->0),
            forall|j: int| 0 <= j < it.index() ==> top is Some && *(#[trigger] it.seq()[j]).0 <= top->0,
            it.index() == it.seq().len() ==> forall|k: usize|
                history@.contains_key(k) ==> top is Some && k <= top->0,
    {
        let (k, _) = entry;
        top = match top {
            Some(t) => if *k > t {
                Some(*k)
            } else {
                Some(t)
            },
            None => Some(*k),
        };
        assert forall|key: usize|
            it.index() + 1 == it.seq().len() && history@.contains_key(key) implies top is Some
            && key <= top->0 by {
            assert(it.seq().contains((&key, &history@[key])));
            let j = choose|j: int| 0 <= j < it.seq().len() && it.seq()[j] == (&key, &history@[key]);
            assert(*it.seq()[j].0 == key);
        }
    }
    top
}

/// The values of the register cycle by cycle, up to the last cycle for which the history holds
/// a value.
pub fn complete_history(history: BTreeMap<usize, i32>) -> (output: Vec<i32>)
    ensures
        completes(history@, output@),
        output@ == completed(history@),
{
    let mut output: Vec<i32> = Vec::new();
    let max_keys = match last_cycle(&history) {
        Some(k) => k,
        None => {
            proof {
                lemma_completed(history@, output@);
            }
            return output;
        },
    };
    let mut current: i32 = 0;
    let mut i: usize = 0;
    while i < max_keys
        invariant
            0 <= i <= max_keys,
            is_top(history@, max_keys),
            output.len() == i,
            forall|j: int| 0 <= j < i ==> #[trigger] output[j] == held(history@, j),
            i > 0 ==> current == held(history@, i - 1),
            i == 0 ==> current == 0,
        decreases max_keys - i,
    {
        if let Some(value) = history.get(&i) {
            current = *value;
        }
        output.push(current);
        i += 1;
    }
    if let Some(value) = history.get(&i) {
        current = *value;
    }
    output.push(current);
    proof {
        lemma_completed(history@, output@);
    }
    output
}

/// There is one way to complete a history.
pub proof fn lemma_completed(history: Map<usize, i32>, values: Seq<i32>)
    requires
        completes(history, values),
    ensures
        values == completed(history),
{
    let other = completed(history);
    assert(completes(history, other));
    if exists|top: usize| is_top(history, top) {
        let top = choose|top: usize| is_top(history, top);
        assert(values.len() == top + 1 && other.len() == top + 1);
    } else {
        assert forall|k: usize| !history.dom().contains(k) by {
            if history.dom().contains(k) {
                lemma_top_exists(history, k, usize::MAX as int);
            }
        }
    }
    assert(values =~= other);
}

/// A history that holds a value has a last cycle with a value.
pub proof fn lemma_top_exists(history: Map<usize, i32>, k: usize, from: int)
    requires
        history.dom().contains(k),
        k <= from <= usize::MAX,
        forall|j: usize| history.dom().contains(j) ==> j <= from,
    ensures
        exists|top: usize| is_top(history, top),
    decreases from - k,
{
    if history.dom().contains(from as usize) {
        assert(is_top(history, from as usize));
    } else {
        lemma_top_exists(history, k, from - 1);
    }
}

/// Whether cycle `key`, counted from 0, is one of those that are measured: cycle `start`,
/// counted from 1, and every cycle that lies a multiple of `increment` after it.
pub open spec fn measured(key: int, start: int, increment: int) -> bool {
    key >= start - 1 && key >= 0 && (key + 1 - start) % increment == 0
}

/// The signal strengths in the measured cycles among the first `n`: the number of the cycle,
/// counted from 1, times the value of the register.
pub open spec fn strengths(values: Seq<i32>, start: int, increment: int, n: int) -> Seq<i32>
    decreases n,
{
    if n <= 0 {
        Seq::empty()
    } else if measured(n - 1, start, increment) {
        strengths(values, start, increment, n - 1).push((n * values[n - 1]) as i32)
    } else {
        strengths(values, start, increment, n - 1)
    }
}

/// Whether the signal strength of cycle `key`, counted from 0, can be held.
pub open spec fn strong(values: Seq<i32>, key: int) -> bool {
    key + 1 <= i32::MAX && i32::MIN <= (key + 1) * values[key] <= i32::MAX
}

/// Whether the signal strengths of the measured cycles among the first `n` can be held.
pub open spec fn measurable(values: Seq<i32>, start: int, increment: int, n: int) -> bool {
    forall|key: int| 0 <= key < n && measured(key, start, increment) ==> #[trigger] strong(values, key)
}

/// The signal strengths in the measured cycles, the last cycle left out, if they can be held.
pub fn try_get_signal_strengths(start: usize, increment: usize, history: BTreeMap<usize, i32>) -> (r:
    Option<Vec<i32>>)
    requires
        increment > 0,
    ensures
        r is Some == (completed(history@).len() > 0 && measurable(
            completed(history@),
            start as int,
            increment as int,
            completed(history@).len() - 1,
        )),
        r is Some ==> r->0@ == strengths(
            completed(history@),
            start as int,
            increment as int,
            completed(history@).len() - 1,
        ),
{
    let cycles = complete_history(history);
    if cycles.len() == 0 {
        return None;
    }
    let ghost values = cycles@;
    let mut out: Vec<i32> = Vec::new();
    let mut key: usize = 0;
    while key < cycles.len() - 1
        invariant
            values == cycles@,
            values == completed(history@),
            cycles.len() > 0,
            increment > 0,
            0 <= key <= cycles.len() - 1,
            measurable(values, start as int, increment as int, key as int),
            out@ == strengths(values, start as int, increment as int, key as int),
        decreases cycles.len() - key,
    {
        let selected = if key < start.saturating_sub(1) {
            false
        } else {
            (key + 1 - start) % increment == 0
        };
        assert(selected == measured(key as int, start as int, increment as int));
        if selected {
            if key >= i32::MAX as usize {
                assert(!strong(values, key as int));
                return None;
            }
            assert(i64::MIN <= (key + 1) * cycles[key as int] <= i64::MAX) by (nonlinear_arith)
                requires
                    0 <= key < 0x7fff_ffff,
                    -0x8000_0000 <= cycles[key as int] <= 0x7fff_ffff,
            ;
            let product: i64 = (key as i64 + 1) * cycles[key] as i64;
            if product < i32::MIN as i64 || product > i32::MAX as i64 {
                assert(!strong(values, key as int));
                return None;
            }
            assert(strong(values, key as int));
            out.push(product as i32);
        }
        key += 1;
    }
    Some(out)
}

/// The signal strengths in the measured cycles, the last cycle left out.
pub fn get_signal_strengths(start: usize, increment: usize, history: BTreeMap<usize, i32>) -> (r:
    Vec<i32>)
    requires
        increment > 0,
        completed(history@).len() > 0,
        measurable(
            completed(history@),
            start as int,
            increment as int,
            completed(history@).len() - 1,
        ),
    ensures
        r@ == strengths(
            completed(history@),
            start as int,
            increment as int,
            completed(history@).len() - 1,
        ),
{
    try_get_signal_strengths(start, increment, history).unwrap()
}

/// Whether the pixel at place `place` of a row is lit when the register holds `value`: the
/// two differ by less than 2.
pub open spec fn lit(value: i32, place: int) -> bool {
    -2 < value - place < 2
}

/// Whether it can be worked out which pixels are lit in rows of `length` pixels.
pub open spec fn drawable(values: Seq<i32>, length: int) -> bool {
    &&& 0 < length <= i32::MAX
    &&& forall|i: int|
        0 <= i < values.len() ==> i32::MIN < (#[trigger] values[i]) - i % length <= i32::MAX
}

/// The picture in rows of `length` pixels: pixel `i` is drawn in cycle `i` at place `i` in
/// its row, the places counted from 0.
pub open spec fn drawing(values: Seq<i32>, length: int) -> Seq<Seq<bool>> {
    Seq::new(
        ((values.len() + length - 1) / length) as nat,
        |k: int|
            Seq::new(
                (if (k + 1) * length <= values.len() {
                    length
                } else {
                    values.len() - k * length
                }) as nat,
                |j: int| lit(values[k * length + j], j),
            ),
    )
}

/// `Itertools::chunks` on the values with their numbers: rows of `length` values in their
/// order, the last row shorter where the values do not fill it. Value `j` of row `k` is value
/// number `k * length + j`, given with that number.
#[verifier::external_body]
fn chunked(history: &Vec<i32>, length: usize) -> (out: Vec<Vec<(usize, i32)>>)
    requires
        length > 0,
    ensures
        out.len() == (history.len() + length - 1) / (length as int),
        forall|k: int|
            0 <= k < out.len() ==> (#[trigger] out[k]).len() == if (k + 1) * length <= history.len() {
                length as int
            } else {
                history.len() - k * length
            },
        forall|k: int, j: int|
            0 <= k < out.len() && 0 <= j < out[k].len() ==> #[trigger] out[k][j] == (
                (k * length + j) as usize,
                history[k * length + j],
            ),
{
    history.iter().enumerate().chunks(length).into_iter().map(
        |row| row.map(|(i, v)| (i, *v)).collect(),
    ).collect()
}

/// Tells whether it can be worked out which pixels are lit.
fn is_drawable(history: &Vec<i32>, length: usize) -> (r: bool)
    ensures
        r == drawable(history@, length as int),
{
    if length == 0 || length > i32::MAX as usize {
        return false;
    }
    let mut i: usize = 0;
    while i < history.len()
        invariant
            0 < length <= i32::MAX,
            0 <= i <= history.len(),
            forall|k: int|
                0 <= k < i ==> i32::MIN < (#[trigger] history@[k]) - k % (length as int) <= i32::MAX,
        decreases history.len() - i,
    {
        let d: i64 = history[i] as i64 - (i % length) as i64;
        if d <= i32::MIN as i64 || d > i32::MAX as i64 {
            return false;
        }
        i += 1;
    }
    true
}

/// The picture in rows of `length` pixels, if it can be worked out.
pub fn try_get_drawing(length: usize, history: BTreeMap<usize, i32>) -> (r: Option<Vec<Vec<bool>>>)
    ensures
        r is Some == drawable(completed(history@), length as int),
        r is Some ==> crate::text::nested(r->0@) == drawing(completed(history@), length as int),
{
    let history = complete_history(history);
    if !is_drawable(&history, length) {
        return None;
    }
    let rows = chunked(&history, length);
    let ghost values = history@;
    let ghost picture = drawing(values, length as int);
    let mut output: Vec<Vec<bool>> = Vec::new();
    let mut k: usize = 0;
    while k < rows.len()
        invariant
            values == history@,
            drawable(values, length as int),
            picture == drawing(values, length as int),
            rows.len() == picture.len(),
            forall|a: int|
                0 <= a < rows.len() ==> (#[trigger] rows[a]).len() == if (a + 1) * length
                    <= history.len() {
                    length as int
                } else {
                    history.len() - a * length
                },
            forall|a: int, j: int|
                0 <= a < rows.len() && 0 <= j < rows[a].len() ==> #[trigger] rows[a][j] == (
                    (a * length + j) as usize,
                    history[a * length + j],
                ),
            0 <= k <= rows.len(),
            output.len() == k,
            forall|a: int| 0 <= a < k ==> (#[trigger] output[a])@ == picture[a],
        decreases rows.len() - k,
    {
        let range = &rows[k];
        let mut row: Vec<bool> = Vec::new();
        let mut j: usize = 0;
        assert(range.len() <= length) by (nonlinear_arith)
            requires
                range.len() == if (k + 1) * length <= history.len() {
                    length as int
                } else {
                    history.len() - k * length
                },
                k >= 0,
                length > 0,
        ;
        assert forall|b: int| 0 <= b < range.len() implies 0 <= (#[trigger] range[b]).0
            < values.len() && range[b].0 == k * length + b by {
            assert((k + 1) * length == k * length + length) by (nonlinear_arith);
            assert(0 <= k * length) by (nonlinear_arith)
                requires
                    k >= 0,
                    length > 0,
            ;
        }
        while j < range.len()
            invariant
                values == history@,
                drawable(values, length as int),
                picture == drawing(values, length as int),
                0 <= k < rows.len(),
                rows.len() == picture.len(),
                range == rows[k as int],
                range.len() == picture[k as int].len(),
                range.len() <= length,
                forall|b: int|
                    0 <= b < range.len() ==> #[trigger] range[b] == (
                        (k * length + b) as usize,
                        history[k * length + b],
                    ),
                forall|b: int|
                    0 <= b < range.len() ==> 0 <= (#[trigger] range[b]).0 < values.len()
                        && range[b].0 == k * length + b,
                0 <= j <= range.len(),
                row.len() == j,
                forall|b: int| 0 <= b < j ==> #[trigger] row[b] == picture[k as int][b],
            decreases range.len() - j,
        {
            let (i, v) = range[j];
            proof {
                lemma_fundamental_div_mod_converse(i as int, length as int, k as int, j as int);
                assert(values[i as int] == v);
            }
            let diff: i32 = v - (i % length) as i32;
            let near = if diff < 0 {
                0 - diff < 2
            } else {
                diff < 2
            };
            row.push(near);
            j += 1;
        }
        assert(row@ =~= picture[k as int]);
        output.push(row);
        k += 1;
    }
    assert(crate::text::nested(output@) =~= picture);
    Some(output)
}

/// The picture in rows of `length` pixels.
pub fn get_drawing(length: usize, history: BTreeMap<usize, i32>) -> (r: Vec<Vec<bool>>)
    requires
        drawable(completed(history@), length as int),
    ensures
        crate::text::nested(r@) == drawing(completed(history@), length as int),
{
    try_get_drawing(length, history).unwrap()
}

/// The first `n` pixels of a row as characters: `#` for a lit pixel, `.` for a dark one.
pub open spec fn inked(line: Seq<bool>, n: int) -> Seq<char>
    decreases n,
{
    if n <= 0 {
        Seq::empty()
    } else {
        inked(line, n - 1).push(
            if line[n - 1] {
                '#'
            } else {
                '.'
            },
        )
    }
}

/// The first `n` rows of a picture as text, a line feed before each row.
pub open spec fn printed(drawing: Seq<Seq<bool>>, n: int) -> Seq<char>
    decreases n,
{
    if n <= 0 {
        Seq::empty()
    } else {
        printed(drawing, n - 1) + seq!['\n'] + inked(drawing[n - 1], drawing[n - 1].len() as int)
    }
}

/// The picture as text.
pub fn format_drawing(drawing: Vec<Vec<bool>>) -> (output: String)
    ensures
        output@ == printed(crate::text::nested(drawing@), drawing.len() as int),
{
    let ghost picture = crate::text::nested(drawing@);
    let mut output = String::new();
    let mut k: usize = 0;
    while k < drawing.len()
        invariant
            picture == crate::text::nested(drawing@),
            0 <= k <= drawing.len(),
            output@ == printed(picture, k as int),
        decreases drawing.len() - k,
    {
        let line = &drawing[k];
        assert(picture[k as int] == line@);
        let ghost before = output@;
        output.push('\n');
        let mut j: usize = 0;
        while j < line.len()
            invariant
                0 <= j <= line.len(),
                output@ == before + seq!['\n'] + inked(line@, j as int),
            decreases line.len() - j,
        {
            output.push(if line[j] {
                '#'
            } else {
                '.'
            });
            assert(output@ =~= before + seq!['\n'] + inked(line@, j + 1));
            j += 1;
        }
        k += 1;
    }
    output
}

/// The processor after the first `n` instructions: its cycles and its register; `None` when
/// a number cannot be held.
pub open spec fn state(program: Seq<Instruction>, n: int) -> Option<(usize, i32)>
    decreases n,
{
    if n <= 0 {
        Some((0, 1))
    } else {
        match state(program, n - 1) {
            Some((counter, register)) => if counter + cost(program[n - 1]) <= usize::MAX && i32::MIN
                <= register + gain(program[n - 1]) <= i32::MAX {
                Some(
                    (
                        (counter + cost(program[n - 1])) as usize,
                        (register + gain(program[n - 1])) as i32,
                    ),
                )
            } else {
                None
            },
            None => None,
        }
    }
}

/// The history of the register over the first `n` instructions: its value at the start and
/// after each instruction, by the number of cycles that have passed.
pub open spec fn recorded(program: Seq<Instruction>, n: int) -> Option<Map<usize, i32>>
    decreases n,
{
    if n <= 0 {
        Some(Map::empty().insert(0usize, 1i32))
    } else {
        match (recorded(program, n - 1), state(program, n)) {
            (Some(history), Some((counter, register))) => Some(history.insert(counter, register)),
            _ => None,
        }
    }
}

/// Runs the instructions and keeps the history of the register, if the numbers can be held.
pub fn try_run(instructions: &Vec<Instruction>) -> (r: Option<BTreeMap<usize, i32>>)
    ensures
        r is Some == recorded(instructions@, instructions.len() as int) is Some,
        r is Some ==> r->0@ == recorded(instructions@, instructions.len() as int)->0,
{
    let mut history: BTreeMap<usize, i32> = BTreeMap::new();
    let mut cpu = CPU::new();
    cpu.register_x = 1;
    history.insert(cpu.counter, cpu.register_x);
    let mut i: usize = 0;
    while i < instructions.len()
        invariant
            0 <= i <= instructions.len(),
            state(instructions@, i as int) == Some((cpu.counter, cpu.register_x)),
            recorded(instructions@, i as int) == Some(history@),
        decreases instructions.len() - i,
    {
        let instruction = instructions[i];
        let cycles: usize = match instruction {
            Instruction::Noop => 1,
            Instruction::Addx(_) => 2,
        };
        let added: i64 = match instruction {
            Instruction::Noop => 0,
            Instruction::Addx(x) => x as i64,
        };
        let sum: i64 = cpu.register_x as i64 + added;
        if cpu.counter > usize::MAX - cycles || sum < i32::MIN as i64 || sum > i32::MAX as i64 {
            proof {
                lemma_recorded_fails(instructions@, i + 1, instructions.len() as int);
            }
            return None;
        }
        cpu.execute(instruction);
        history.insert(cpu.counter, cpu.register_x);
        i += 1;
    }
    Some(history)
}

/// Once a number cannot be held, there is no history.
pub proof fn lemma_recorded_fails(program: Seq<Instruction>, n: int, m: int)
    requires
        0 <= n <= m,
        state(program, n) is None,
    ensures
        recorded(program, m) is None,
        state(program, m) is None,
    decreases m,
{
    if n < m {
        lemma_recorded_fails(program, n, m - 1);
    }
}

/// The first `n` numbers added up; `None` when a sum cannot be held.
pub open spec fn total(numbers: Seq<i32>, n: int) -> Option<i32>
    decreases n,
{
    if n <= 0 {
        Some(0)
    } else {
        match total(numbers, n - 1) {
            Some(t) if i32::MIN <= t + numbers[n - 1] <= i32::MAX => Some((t + numbers[n - 1]) as i32),
            _ => None,
        }
    }
}

/// The sum of the signal strengths in cycle 20 and every 40 cycles after it.
pub open spec fn answer_1(input: Seq<char>) -> Option<int> {
    match program_of(input) {
        Some(program) => match recorded(program, program.len() as int) {
            Some(history) => {
                let values = completed(history);
                if values.len() > 0 && measurable(values, 20, 40, values.len() - 1) {
                    let list = strengths(values, 20, 40, values.len() - 1);
                    match total(list, list.len() as int) {
                        Some(t) => Some(t as int),
                        None => None,
                    }
                } else {
                    None
                }
            },
            None => None,
        },
        None => None,
    }
}

/// The sum of the signal strengths in cycle 20 and every 40 cycles after it, if it can be
/// worked out.
pub fn try_puzzle_1(input: &str) -> (r: Option<String>)
    ensures
        r is Some == answer_1(input@) is Some,
        r is Some ==> r->0@ == signed_decimal(answer_1(input@)->0),
{
    let instructions = match try_parse_input(input) {
        Some(list) => list,
        None => {
            return None;
        },
    };
    let history = match try_run(&instructions) {
        Some(history) => history,
        None => {
            return None;
        },
    };
    let list = match try_get_signal_strengths(20, 40, history) {
        Some(list) => list,
        None => {
            return None;
        },
    };
    let mut strength: Option<i32> = Some(0);
    let mut i: usize = 0;
    while i < list.len()
        invariant
            0 <= i <= list.len(),
            strength == total(list@, i as int),
        decreases list.len() - i,
    {
        strength = match strength {
            Some(t) => t.checked_add(list[i]),
            None => None,
        };
        i += 1;
    }
    match strength {
        Some(t) => Some(format_i64(t as i64)),
        None => None,
    }
}

/// The sum of the signal strengths in cycle 20 and every 40 cycles after it.
pub fn puzzle_1(input: &str) -> (r: String)
    requires
        answer_1(input@) is Some,
    ensures
        r@ == signed_decimal(answer_1(input@)->0),
{
    try_puzzle_1(input).unwrap()
}

/// The picture in rows of 40 pixels, as text.
pub open spec fn answer_2(input: Seq<char>) -> Option<Seq<char>> {
    match program_of(input) {
        Some(program) => match recorded(program, program.len() as int) {
            Some(history) => if drawable(completed(history), 40) {
                Some(
                    printed(
                        drawing(completed(history), 40),
                        drawing(completed(history), 40).len() as int,
                    ),
                )
            } else {
                None
            },
            None => None,
        },
        None => None,
    }
}

/// The picture in rows of 40 pixels, if it can be worked out.
pub fn try_puzzle_2(input: &str) -> (r: Option<String>)
    ensures
        r is Some == answer_2(input@) is Some,
        r is Some ==> r->0@ == answer_2(input@)->0,
{
    let instructions = match try_parse_input(input) {
        Some(list) => list,
        None => {
            return None;
        },
    };
    let history = match try_run(&instructions) {
        Some(history) => history,
        None => {
            return None;
        },
    };
    match try_get_drawing(40, history) {
        Some(drawing) => {
            assert(crate::text::nested(drawing@).len() == drawing.len());
            Some(format_drawing(drawing))
        },
        None => None,
    }
}

/// The picture in rows of 40 pixels.
pub fn puzzle_2(input: &str) -> (r: String)
    requires
        answer_2(input@) is Some,
    ensures
        r@ == answer_2(input@)->0,
{
    try_puzzle_2(input).unwrap()
}

} // verus!
