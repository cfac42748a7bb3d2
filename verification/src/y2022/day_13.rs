//! Distress signal: packets of numbers and lists, and the order in which they belong.

use crate::number::{decimal, format_u64};
use crate::scan::{natural, read_natural};
use crate::text::chars;
use std::cmp::Ordering;
use vstd::prelude::*;

verus! {

broadcast use {
    vstd::seq::axiom_seq_index_decreases,
    vstd::std_specs::vec::axiom_vec_index_decreases,
};

/// A packet or a part of one: a number or a list of parts.
#[derive(Debug, PartialEq, Eq)]
pub enum ListElement {
    Number(u8),
    List(Vec<ListElement>),
}

/// What a packet holds.
pub enum Packet {
    Number(u8),
    List(Seq<Packet>),
}

/// What a packet holds.
pub open spec fn packet_of(e: ListElement) -> Packet
    decreases e,
{
    match e {
        ListElement::Number(n) => Packet::Number(n),
        ListElement::List(v) => Packet::List(
            Seq::new(
                v@.len(),
                |i: int|
                    if 0 <= i < v@.len() {
                        packet_of(v@[i])
                    } else {
                        Packet::Number(0)
                    },
            ),
        ),
    }
}

impl View for ListElement {
    type V = Packet;

    open spec fn view(&self) -> Packet {
        packet_of(*self)
    }
}

/// How `a` stands to `b`. Numbers stand as numbers do. Lists are gone through part by part:
/// the first two parts that are not equal decide, and where there are none the shorter list
/// is the lesser. A number set against a list counts as the list of that number alone.
pub open spec fn order(a: Packet, b: Packet) -> Ordering
    decreases a, b, 1int, 0int,
{
    match (a, b) {
        (Packet::Number(x), Packet::Number(y)) => if x < y {
            Ordering::Less
        } else if x > y {
            Ordering::Greater
        } else {
            Ordering::Equal
        },
        (Packet::List(_), Packet::List(_)) => order_from(a, b, 0),
        (Packet::Number(_), Packet::List(lb)) => if lb.len() == 0 {
            Ordering::Greater
        } else {
            match order(a, b->List_0[0]) {
                Ordering::Equal => if lb.len() == 1 {
                    Ordering::Equal
                } else {
                    Ordering::Less
                },
                decided => decided,
            }
        },
        (Packet::List(la), Packet::Number(_)) => if la.len() == 0 {
            Ordering::Less
        } else {
            match order(a->List_0[0], b) {
                Ordering::Equal => if la.len() == 1 {
                    Ordering::Equal
                } else {
                    Ordering::Greater
                },
                decided => decided,
            }
        },
    }
}

/// How the list `a` stands to the list `b` when their parts before number `i` are equal.
pub open spec fn order_from(a: Packet, b: Packet, i: int) -> Ordering
    decreases a, b, 0int, a->List_0.len() - i,
{
    if !(a is List && b is List && 0 <= i) {
        Ordering::Equal
    } else if i >= a->List_0.len() && i >= b->List_0.len() {
        Ordering::Equal
    } else if i >= a->List_0.len() {
        Ordering::Less
    } else if i >= b->List_0.len() {
        Ordering::Greater
    } else {
        match order(a->List_0[i], b->List_0[i]) {
            Ordering::Equal => order_from(a, b, i + 1),
            decided => decided,
        }
    }
}

/// What a packet holds is what its parts hold.
pub proof fn lemma_view(e: ListElement)
    ensures
        e matches ListElement::Number(n) ==> e@ == Packet::Number(n),
        e matches ListElement::List(v) ==> e@ is List && e@->List_0.len() == v@.len() && forall|
            k: int,
        | 0 <= k < v@.len() ==> e@->List_0[k] == (#[trigger] v@[k])@,
{
    match e {
        ListElement::Number(n) => {},
        ListElement::List(v) => {
            assert(e@ is List);
            assert(e@->List_0.len() == v@.len());
        },
    }
}

/// Sets two packets against each other.
pub fn weigh(a: &ListElement, b: &ListElement) -> (r: Ordering)
    ensures
        r == order(a@, b@),
    decreases a, b,
{
    proof {
        lemma_view(*a);
        lemma_view(*b);
    }
    match (a, b) {
        (ListElement::Number(x), ListElement::Number(y)) => {
            if *x < *y {
                Ordering::Less
            } else if *x > *y {
                Ordering::Greater
            } else {
                Ordering::Equal
            }
        },
        (ListElement::List(list_a), ListElement::List(list_b)) => {
            let mut i: usize = 0;
            while i < list_a.len() && i < list_b.len()
                invariant
                    0 <= i <= list_a.len(),
                    i <= list_b.len(),
                    a@ is List,
                    b@ is List,
                    a@->List_0.len() == list_a.len(),
                    b@->List_0.len() == list_b.len(),
                    forall|k: int| 0 <= k < list_a.len() ==> a@->List_0[k] == (#[trigger] list_a@[k])@,
                    forall|k: int| 0 <= k < list_b.len() ==> b@->List_0[k] == (#[trigger] list_b@[k])@,
                    decreases_to!(a => list_a),
                    decreases_to!(b => list_b),
                    order(a@, b@) == order_from(a@, b@, i + 0),
                decreases list_a.len() - i,
            {
                proof {
                    assert(decreases_to!(list_a => list_a[i + 0]));
                }
                match weigh(&list_a[i], &list_b[i]) {
                    Ordering::Equal => {},
                    decided => {
                        return decided;
                    },
                }
                i += 1;
            }
            if i >= list_a.len() && i >= list_b.len() {
                Ordering::Equal
            } else if i >= list_a.len() {
                Ordering::Less
            } else {
                Ordering::Greater
            }
        },
        (ListElement::Number(_), ListElement::List(list_b)) => {
            if list_b.len() == 0 {
                Ordering::Greater
            } else {
                proof {
                    assert(decreases_to!(list_b => list_b[0]));
                    assert(b@->List_0[0] == list_b@[0]@);
                }
                match weigh(a, &list_b[0]) {
                    Ordering::Equal => if list_b.len() == 1 {
                        Ordering::Equal
                    } else {
                        Ordering::Less
                    },
                    decided => decided,
                }
            }
        },
        (ListElement::List(list_a), ListElement::Number(_)) => {
            if list_a.len() == 0 {
                Ordering::Less
            } else {
                proof {
                    assert(decreases_to!(list_a => list_a[0]));
                    assert(a@->List_0[0] == list_a@[0]@);
                }
                match weigh(&list_a[0], b) {
                    Ordering::Equal => if list_a.len() == 1 {
                        Ordering::Equal
                    } else {
                        Ordering::Greater
                    },
                    decided => decided,
                }
            }
        },
    }
}

impl Clone for ListElement {
    fn clone(&self) -> (r: Self)
        ensures
            r@ == self@,
        decreases self,
    {
        proof {
            lemma_view(*self);
        }
        match self {
            ListElement::Number(n) => ListElement::Number(*n),
            ListElement::List(list) => {
                let mut parts: Vec<ListElement> = Vec::new();
                let mut i: usize = 0;
                while i < list.len()
                    invariant
                        0 <= i <= list.len(),
                        parts.len() == i,
                        forall|k: int| 0 <= k < i ==> (#[trigger] parts@[k])@ == list@[k]@,
                        decreases_to!(self => list),
                    decreases list.len() - i,
                {
                    proof {
                        assert(decreases_to!(list => list[i + 0]));
                    }
                    parts.push(list[i].clone());
                    i += 1;
                }
                let r = ListElement::List(parts);
                proof {
                    lemma_view(r);
                }
                assert(r@->List_0 =~= self@->List_0);
                r
            },
        }
    }
}

impl PartialOrd for ListElement {
    fn partial_cmp(&self, other: &Self) -> (r: Option<Ordering>) {
        Some(weigh(self, other))
    }
}

impl vstd::std_specs::cmp::PartialOrdSpecImpl for ListElement {
    open spec fn obeys_partial_cmp_spec() -> bool {
        true
    }

    open spec fn partial_cmp_spec(&self, other: &Self) -> Option<Ordering> {
        Some(order(self@, other@))
    }
}

impl ListElement {
    /// Sets the packet against another.
    pub fn cmp(&self, other: &Self) -> (r: Ordering)
        ensures
            r == order(self@, other@),
    {
        weigh(self, other)
    }
}

/// The part of a packet written at position `from`, a number of at most 255 or a list, and
/// the position after it.
pub open spec fn item_at(s: Seq<char>, from: int) -> Option<(Packet, int)>
    decreases s.len() - from, 1int,
{
    match natural(s, from, u8::MAX as int) {
        Some((n, to)) => Some((Packet::Number(n as u8), to)),
        None => list_at(s, from),
    }
}

/// The list written at position `from` in square brackets, its parts with commas between
/// them, and the position after it.
pub open spec fn list_at(s: Seq<char>, from: int) -> Option<(Packet, int)>
    decreases s.len() - from, 0int,
{
    if 0 <= from < s.len() && s[from] == '[' {
        let (parts, end) = parts_at(s, from + 1);
        if 0 <= end < s.len() && s[end] == ']' {
            Some((Packet::List(parts), end + 1))
        } else {
            None
        }
    } else {
        None
    }
}

/// The parts written at position `from` with commas between them, and the position after
/// them; there may be none.
pub open spec fn parts_at(s: Seq<char>, from: int) -> (Seq<Packet>, int)
    decreases s.len() - from, 2int,
{
    match item_at(s, from) {
        Some((p, to)) => if from < to <= s.len() {
            more_parts(s, to, seq![p])
        } else {
            (Seq::empty(), from)
        },
        None => (Seq::empty(), from),
    }
}

/// The parts that follow at position `from`, each after a comma, added to `parts`, and the
/// position after them.
pub open spec fn more_parts(s: Seq<char>, from: int, parts: Seq<Packet>) -> (Seq<Packet>, int)
    decreases s.len() - from, 3int,
{
    if 0 <= from < s.len() && s[from] == ',' {
        match item_at(s, from + 1) {
            Some((p, to)) => if from < to <= s.len() {
                more_parts(s, to, parts.push(p))
            } else {
                (parts, from)
            },
            None => (parts, from),
        }
    } else {
        (parts, from)
    }
}

/// What the parts of a list hold.
pub open spec fn parts_of(list: Seq<ListElement>) -> Seq<Packet> {
    Seq::new(list.len(), |i: int| list[i]@)
}

/// Reads a part of a packet at position `from`.
pub fn parse_item(v: &Vec<char>, from: usize) -> (r: Option<(ListElement, usize)>)
    ensures
        r is Some == item_at(v@, from as int) is Some,
        r matches Some(p) ==> item_at(v@, from as int) == Some((p.0@, p.1 as int)) && from < p.1
            <= v.len(),
    decreases v.len() - from, 1int,
{
    match read_natural(v, from, u8::MAX as u64) {
        Some((n, to)) => Some((ListElement::Number(n as u8), to)),
        None => parse_input_list(v, from),
    }
}

/// Reads a list at position `from`.
pub fn parse_input_list(v: &Vec<char>, from: usize) -> (r: Option<(ListElement, usize)>)
    ensures
        r is Some == list_at(v@, from as int) is Some,
        r matches Some(p) ==> list_at(v@, from as int) == Some((p.0@, p.1 as int)) && from < p.1
            <= v.len(),
    decreases v.len() - from, 0int,
{
    if !(from < v.len() && v[from] == '[') {
        return None;
    }
    let mut result: Vec<ListElement> = Vec::new();
    let mut at: usize = from + 1;
    let ghost goal = parts_at(v@, from + 1);
    assert(parts_of(result@) =~= Seq::empty());
    match parse_item(v, from + 1) {
        Some((part, to)) => {
            let ghost added = part@;
            result.push(part);
            assert(parts_of(result@) =~= seq![added]);
            at = to;
            let mut more = true;
            while more
                invariant
                    from < at <= v.len(),
                    more ==> goal == more_parts(v@, at as int, parts_of(result@)),
                    !more ==> goal == (parts_of(result@), at as int),
                decreases
                        v.len() - at + if more {
                            1int
                        } else {
                            0int
                        },
            {
                if at < v.len() && v[at] == ',' {
                    match parse_item(v, at + 1) {
                        Some((part, to)) => {
                            let ghost before = parts_of(result@);
                            let ghost added = part@;
                            result.push(part);
                            assert(parts_of(result@) =~= before.push(added));
                            at = to;
                        },
                        None => {
                            more = false;
                        },
                    }
                } else {
                    more = false;
                }
            }
        },
        None => {},
    }
    if at < v.len() && v[at] == ']' {
        let list = ListElement::List(result);
        proof {
            lemma_view(list);
            assert(list@->List_0 =~= goal.0);
        }
        Some((list, at + 1))
    } else {
        None
    }
}

/// The pair of packets written at position `from`, one in each of two lines, and the position
/// after it.
pub open spec fn pair_at(s: Seq<char>, from: int) -> Option<((Packet, Packet), int)> {
    match list_at(s, from) {
        Some((left, a)) => if 0 <= a < s.len() && s[a] == '\n' {
            match list_at(s, a + 1) {
                Some((right, to)) => Some(((left, right), to)),
                None => None,
            }
        } else {
            None
        },
        None => None,
    }
}

/// The pairs that follow at position `from`, each after an empty line, added to `pairs`.
pub open spec fn more_pairs(s: Seq<char>, from: int, pairs: Seq<(Packet, Packet)>) -> Seq<
    (Packet, Packet),
>
    decreases s.len() - from,
{
    let next = if 0 <= from && from + 1 < s.len() && s[from] == '\n' && s[from + 1] == '\n' {
        pair_at(s, from + 2)
    } else {
        None
    };
    match next {
        Some((pair, to)) => if from < to <= s.len() {
            more_pairs(s, to, pairs.push(pair))
        } else {
            pairs
        },
        None => pairs,
    }
}

/// The pairs of packets that `input` writes, with empty lines between them, up to the first
/// place where none follows; `None` when it begins with none.
pub open spec fn pairs_of(input: Seq<char>) -> Option<Seq<(Packet, Packet)>> {
    match pair_at(input, 0) {
        Some((pair, to)) => Some(more_pairs(input, to, seq![pair])),
        None => None,
    }
}

/// What pairs of packets hold.
pub open spec fn pair_views(pairs: Seq<(ListElement, ListElement)>) -> Seq<(Packet, Packet)> {
    Seq::new(pairs.len(), |i: int| (pairs[i].0@, pairs[i].1@))
}

fn parse_pair(v: &Vec<char>, from: usize) -> (r: Option<((ListElement, ListElement), usize)>)
    ensures
        r is Some == pair_at(v@, from as int) is Some,
        r matches Some(p) ==> pair_at(v@, from as int) == Some((((p.0).0@, (p.0).1@), p.1 as int))
            && from < p.1 <= v.len(),
{
    let (left, a) = match parse_input_list(v, from) {
        Some(p) => p,
        None => {
            return None;
        },
    };
    if !(a < v.len() && v[a] == '\n') {
        return None;
    }
    match parse_input_list(v, a + 1) {
        Some((right, to)) => Some(((left, right), to)),
        None => None,
    }
}

/// Reads the pairs of packets, if the input begins with one.
pub fn try_parse_input(input: &str) -> (r: Option<Vec<(ListElement, ListElement)>>)
    ensures
        r is Some == pairs_of(input@) is Some,
        r is Some ==> pair_views(r->0@) == pairs_of(input@)->0,
{
    let v = chars(input);
    let (first, start) = match parse_pair(&v, 0) {
        Some(p) => p,
        None => {
            return None;
        },
    };
    let ghost head = (first.0@, first.1@);
    let mut result: Vec<(ListElement, ListElement)> = Vec::new();
    result.push(first);
    assert(pair_views(result@) =~= seq![head]);
    let mut at: usize = start;
    let mut more = true;
    while more
        invariant
            v@ == input@,
            0 < at <= v.len(),
            more ==> more_pairs(v@, start as int, seq![head]) == more_pairs(
                v@,
                at as int,
                pair_views(result@),
            ),
            !more ==> more_pairs(v@, start as int, seq![head]) == pair_views(result@),
        decreases
                v.len() - at + if more {
                    1int
                } else {
                    0int
                },
    {
        let next = if at < v.len() && v.len() - at >= 2 && v[at] == '\n' && v[at + 1] == '\n' {
            parse_pair(&v, at + 2)
        } else {
            None
        };
        match next {
            Some((pair, to)) => {
                let ghost before = pair_views(result@);
                let ghost added = (pair.0@, pair.1@);
                result.push(pair);
                assert(pair_views(result@) =~= before.push(added));
                at = to;
            },
            None => {
                more = false;
            },
        }
    }
    Some(result)
}

/// Reads the pairs of packets.
pub fn parse_input(input: &str) -> (r: Vec<(ListElement, ListElement)>)
    requires
        pairs_of(input@) is Some,
    ensures
        pair_views(r@) == pairs_of(input@)->0,
{
    try_parse_input(input).unwrap()
}

/// Whether the two packets are in the right order: the first is not the greater.
pub open spec fn in_order(left: Packet, right: Packet) -> bool {
    order(left, right) != Ordering::Greater
}

/// Tells whether the two packets are in the right order.
pub fn is_in_order(left: &ListElement, right: &ListElement) -> (r: bool)
    ensures
        r == in_order(left@, right@),
{
    match weigh(left, right) {
        Ordering::Greater => false,
        _ => true,
    }
}

/// Tells whether the first packet is the lesser.
pub fn is_less(left: &ListElement, right: &ListElement) -> (r: bool)
    ensures
        r == lesser(left@, right@),
{
    match weigh(left, right) {
        Ordering::Less => true,
        _ => false,
    }
}

/// Whether the first packet is the lesser.
pub open spec fn lesser(left: Packet, right: Packet) -> bool {
    order(left, right) == Ordering::Less
}

/// The numbers, counted from 1, of those among the first `n` pairs that are in the right
/// order, added up; `None` when the sum cannot be held.
pub open spec fn indices(pairs: Seq<(Packet, Packet)>, n: int) -> Option<usize>
    decreases n,
{
    if n <= 0 {
        Some(0)
    } else {
        match indices(pairs, n - 1) {
            Some(sum) => if !in_order(pairs[n - 1].0, pairs[n - 1].1) {
                Some(sum)
            } else if sum + n <= usize::MAX {
                Some((sum + n) as usize)
            } else {
                None
            },
            None => None,
        }
    }
}

/// The sum for the pairs that `input` writes.
pub open spec fn answer_1(input: Seq<char>) -> Option<int> {
    match pairs_of(input) {
        Some(pairs) => match indices(pairs, pairs.len() as int) {
            Some(sum) => Some(sum as int),
            None => None,
        },
        None => None,
    }
}

/// The numbers of the pairs in the right order added up, if they can be worked out.
pub fn try_puzzle_1(input: &str) -> (r: Option<String>)
    ensures
        r is Some == answer_1(input@) is Some,
        r is Some ==> r->0@ == decimal(answer_1(input@)->0),
{
    let pairs = match try_parse_input(input) {
        Some(pairs) => pairs,
        None => {
            return None;
        },
    };
    let ghost all = pair_views(pairs@);
    let mut sum: Option<usize> = Some(0);
    let mut id: usize = 0;
    while id < pairs.len()
        invariant
            all == pair_views(pairs@),
            0 <= id <= pairs.len(),
            sum == indices(all, id as int),
        decreases pairs.len() - id,
    {
        assert(all[id as int] == (pairs@[id as int].0@, pairs@[id as int].1@));
        if is_in_order(&pairs[id].0, &pairs[id].1) {
            sum = match sum {
                Some(s) => s.checked_add(id + 1),
                None => None,
            };
        }
        id += 1;
    }
    match sum {
        Some(s) => Some(format_u64(s as u64)),
        None => None,
    }
}

/// The numbers of the pairs in the right order added up.
pub fn puzzle_1(input: &str) -> (r: String)
    requires
        answer_1(input@) is Some,
    ensures
        r@ == decimal(answer_1(input@)->0),
{
    try_puzzle_1(input).unwrap()
}

/// Whether neither of the two packets is the lesser.
pub open spec fn level(left: Packet, right: Packet) -> bool {
    order(left, right) == Ordering::Equal
}

/// Tells whether neither of the two packets is the lesser.
pub fn is_level(left: &ListElement, right: &ListElement) -> (r: bool)
    ensures
        r == level(left@, right@),
{
    match weigh(left, right) {
        Ordering::Equal => true,
        _ => false,
    }
}

/// Tells whether two packets hold the same.
pub fn same_packet(a: &ListElement, b: &ListElement) -> (r: bool)
    ensures
        r == (a@ == b@),
    decreases a,
{
    proof {
        lemma_view(*a);
        lemma_view(*b);
    }
    match (a, b) {
        (ListElement::Number(x), ListElement::Number(y)) => *x == *y,
        (ListElement::List(list_a), ListElement::List(list_b)) => {
            if list_a.len() != list_b.len() {
                return false;
            }
            let mut i: usize = 0;
            while i < list_a.len()
                invariant
                    0 <= i <= list_a.len(),
                    list_a.len() == list_b.len(),
                    a@ is List,
                    b@ is List,
                    a@->List_0.len() == list_a.len(),
                    b@->List_0.len() == list_b.len(),
                    forall|k: int| 0 <= k < list_a.len() ==> a@->List_0[k] == (#[trigger] list_a@[k])@,
                    forall|k: int| 0 <= k < list_b.len() ==> b@->List_0[k] == (#[trigger] list_b@[k])@,
                    forall|k: int| 0 <= k < i ==> (#[trigger] list_a@[k])@ == list_b@[k]@,
                    decreases_to!(a => list_a),
                decreases list_a.len() - i,
            {
                proof {
                    assert(decreases_to!(list_a => list_a[i as int]));
                }
                if !same_packet(&list_a[i], &list_b[i]) {
                    assert(a@->List_0[i as int] != b@->List_0[i as int]);
                    return false;
                }
                i += 1;
            }
            assert(a@->List_0 =~= b@->List_0);
            true
        },
        _ => false,
    }
}

/// The first position from `from` on whose packet is not less than `x`.
pub open spec fn slot(list: Seq<Packet>, x: Packet, from: int) -> int
    decreases list.len() - from,
{
    if from < 0 || from >= list.len() || !lesser(list[from], x) {
        from
    } else {
        slot(list, x, from + 1)
    }
}

/// The packets in their order with `x` among them: `x` comes before the first packet that is
/// not less, unless neither of the two is the lesser; then the list stays as it is.
pub open spec fn kept(list: Seq<Packet>, x: Packet) -> Seq<Packet> {
    let k = slot(list, x, 0);
    if 0 <= k < list.len() && level(list[k], x) {
        list
    } else {
        list.insert(k, x)
    }
}

/// The packets of the first `n` pairs in their order, each kept as it came first.
pub open spec fn gathered(pairs: Seq<(Packet, Packet)>, n: int) -> Seq<Packet>
    decreases n,
{
    if n <= 0 {
        Seq::empty()
    } else {
        kept(kept(gathered(pairs, n - 1), pairs[n - 1].0), pairs[n - 1].1)
    }
}

/// The first position from `from` on that holds `x`; the length of the list when none does.
pub open spec fn place(list: Seq<Packet>, x: Packet, from: int) -> int
    decreases list.len() - from,
{
    if from < 0 || from >= list.len() || list[from] == x {
        from
    } else {
        place(list, x, from + 1)
    }
}

/// The packet that holds the number in a list in a list.
pub open spec fn divider(n: u8) -> Packet {
    Packet::List(seq![Packet::List(seq![Packet::Number(n)])])
}

/// The product of the places, counted from 1, that the dividers of 2 and of 6 take among the
/// packets in their order; `None` when a divider is not kept because a packet came before it
/// that is neither less nor greater, or when the product cannot be held.
pub open spec fn answer_2(input: Seq<char>) -> Option<int> {
    match pairs_of(input) {
        Some(pairs) => {
            let list = kept(kept(gathered(pairs, pairs.len() as int), divider(2)), divider(6));
            let first = place(list, divider(2), 0);
            let second = place(list, divider(6), 0);
            if first < list.len() && second < list.len() && (first + 1) * (second + 1)
                <= usize::MAX {
                Some((first + 1) * (second + 1))
            } else {
                None
            }
        },
        None => None,
    }
}

/// Puts the packet among the packets in their order.
pub fn keep(list: &mut Vec<ListElement>, x: ListElement)
    ensures
        parts_of(final(list)@) == kept(parts_of(old(list)@), x@),
{
    let ghost before = parts_of(list@);
    let mut k: usize = 0;
    while k < list.len() && is_less(&list[k], &x)
        invariant
            list@ == old(list)@,
            before == parts_of(list@),
            0 <= k <= list.len(),
            slot(before, x@, 0) == slot(before, x@, k as int),
        decreases list.len() - k,
    {
        assert(before[k as int] == list@[k as int]@);
        k += 1;
    }
    proof {
        if k < list.len() {
            assert(before[k as int] == list@[k as int]@);
        }
    }
    if k < list.len() && is_level(&list[k], &x) {
        return ;
    }
    let ghost added = x@;
    list.insert(k, x);
    assert(parts_of(list@) =~= before.insert(k as int, added));
}

/// The place of the packet among the packets.
pub fn find(list: &Vec<ListElement>, x: &ListElement) -> (r: usize)
    ensures
        r == place(parts_of(list@), x@, 0),
        r <= list.len(),
{
    let ghost all = parts_of(list@);
    let mut k: usize = 0;
    while k < list.len() && !same_packet(&list[k], x)
        invariant
            all == parts_of(list@),
            0 <= k <= list.len(),
            place(all, x@, 0) == place(all, x@, k as int),
        decreases list.len() - k,
    {
        assert(all[k as int] == list@[k as int]@);
        k += 1;
    }
    proof {
        if k < list.len() {
            assert(all[k as int] == list@[k as int]@);
        }
    }
    k
}

/// The packet that holds the number in a list in a list.
pub fn make_divider(n: u8) -> (r: ListElement)
    ensures
        r@ == divider(n),
{
    let mut inner: Vec<ListElement> = Vec::new();
    inner.push(ListElement::Number(n));
    let middle = ListElement::List(inner);
    let mut outer: Vec<ListElement> = Vec::new();
    outer.push(middle);
    let r = ListElement::List(outer);
    proof {
        lemma_view(middle);
        lemma_view(r);
        assert(middle@->List_0 =~= seq![Packet::Number(n)]);
        assert(r@->List_0 =~= seq![middle@]);
    }
    r
}

/// The product of the places of the two dividers, if it can be worked out.
pub fn try_puzzle_2(input: &str) -> (r: Option<String>)
    ensures
        r is Some == answer_2(input@) is Some,
        r is Some ==> r->0@ == decimal(answer_2(input@)->0),
{
    let input = match try_parse_input(input) {
        Some(pairs) => pairs,
        None => {
            return None;
        },
    };
    let ghost pairs = pair_views(input@);
    let mut packets: Vec<ListElement> = Vec::new();
    assert(parts_of(packets@) =~= Seq::empty());
    let mut i: usize = 0;
    while i < input.len()
        invariant
            pairs == pair_views(input@),
            0 <= i <= input.len(),
            parts_of(packets@) == gathered(pairs, i as int),
        decreases input.len() - i,
    {
        assert(pairs[i as int] == (input@[i as int].0@, input@[i as int].1@));
        keep(&mut packets, input[i].0.clone());
        keep(&mut packets, input[i].1.clone());
        i += 1;
    }
    let divider_1 = make_divider(2);
    let divider_2 = make_divider(6);
    keep(&mut packets, divider_1.clone());
    keep(&mut packets, divider_2.clone());
    let first = find(&packets, &divider_1);
    let second = find(&packets, &divider_2);
    if first >= packets.len() || second >= packets.len() {
        return None;
    }
    assert(0 <= (first + 1) * (second + 1)) by (nonlinear_arith)
        requires
            0 <= first,
            0 <= second,
    ;
    match (first + 1).checked_mul(second + 1) {
        Some(product) => Some(format_u64(product as u64)),
        None => None,
    }
}

/// The product of the places of the two dividers.
pub fn puzzle_2(input: &str) -> (r: String)
    requires
        answer_2(input@) is Some,
    ensures
        r@ == decimal(answer_2(input@)->0),
{
    try_puzzle_2(input).unwrap()
}

} // verus!
