//! Proboscidea Volcanium: valves to open in a network of tunnels before time runs out.

use crate::number::{decimal, format_u64};
use crate::scan::{natural, read_natural, tag, tagged};
use crate::text::chars;
use std::collections::BTreeSet;
use std::hash::DefaultHasher;
use std::hash::Hasher;
use vstd::std_specs::hash::DefaultHasherAdditionalSpecFns;
use vstd::prelude::*;

verus! {

broadcast use vstd::laws_cmp::group_laws_cmp;

/// The name of a valve: two letters.
pub type ValveName = (char, char);

/// Which valves are open, by the two letters of their names.
pub struct ValvesConfiguration {
    pub data: [[bool; 26]; 26],
}

/// Whether `c` is one of the letters from `A` to `Z`.
pub open spec fn is_letter(c: char) -> bool {
    'A' <= c <= 'Z'
}

/// Whether the name is made of letters from `A` to `Z`.
pub open spec fn is_name(name: ValveName) -> bool {
    is_letter(name.0) && is_letter(name.1)
}

/// The number of a letter, from 0 for `A`.
pub open spec fn ordinal(c: char) -> int {
    c as int - 'A' as int
}

fn index_of(c: char) -> (r: usize)
    requires
        is_letter(c),
    ensures
        r == ordinal(c),
        r < 26,
{
    (c as u32 - 'A' as u32) as usize
}

impl ValvesConfiguration {
    /// The same valves open.
    pub fn copy(&self) -> (r: Self)
        ensures
            r.opened() == self.opened(),
    {
        let r = Self { data: self.data };
        assert(r.opened() =~= self.opened()) by {
            reveal(ValvesConfiguration::opened);
        }
        r
    }

    /// The names of the valves that are open.
    #[verifier::opaque]
    pub open spec fn opened(self) -> Set<ValveName> {
        Set::new(|name: ValveName| is_name(name) && self.data[ordinal(name.0)][ordinal(name.1)])
    }

    /// All valves closed.
    pub fn new() -> (r: Self)
        ensures
            r.opened() == Set::<ValveName>::empty(),
    {
        let row = [false;26];
        let r = Self { data: [row;26] };
        assert forall|name: ValveName| !r.opened().contains(name) by {
            reveal(ValvesConfiguration::opened);
            vstd::array::axiom_spec_array_fill_for_copy_type::<bool, 26>(false);
            vstd::array::axiom_spec_array_fill_for_copy_type::<[bool; 26], 26>(row);
            if is_name(name) {
                let i = ordinal(name.0);
                let j = ordinal(name.1);
                assert(0 <= i < 26 && 0 <= j < 26);
                assert(r.data@[i] == row);
                assert(!row@[j]);
            }
        }
        assert(r.opened() =~= Set::<ValveName>::empty());
        r
    }

    /// Tells whether the valve is open.
    pub fn is_open(&self, valve_name: ValveName) -> (r: bool)
        requires
            is_name(valve_name),
        ensures
            r == self.opened().contains(valve_name),
    {
        let id_1 = index_of(valve_name.0);
        let id_2 = index_of(valve_name.1);
        proof {
            reveal(ValvesConfiguration::opened);
        }
        self.data[id_1][id_2]
    }

    /// Opens the valve.
    pub fn open(&mut self, valve_name: &ValveName)
        requires
            is_name(*valve_name),
        ensures
            final(self).opened() == old(self).opened().insert(*valve_name),
    {
        let id_1 = index_of(valve_name.0);
        let id_2 = index_of(valve_name.1);
        self.data[id_1][id_2] = true;
        assert(self.opened() =~= old(self).opened().insert(*valve_name)) by {
            reveal(ValvesConfiguration::opened);
        }
    }
}

/// A state of the search: where the two are, how much pressure has been released, how many
/// minutes have passed, and which valves are open.
pub struct Node {
    pub human_valve: ValveName,
    pub elephant_valve: ValveName,
    pub released_pressure: u16,
    pub minute: u8,
    pub configuration: ValvesConfiguration,
}

/// What a state of the search holds.
pub struct NodeView {
    pub human: ValveName,
    pub elephant: ValveName,
    pub released: u16,
    pub minute: u8,
    pub open: Set<ValveName>,
}

impl View for Node {
    type V = NodeView;

    open spec fn view(&self) -> NodeView {
        NodeView {
            human: self.human_valve,
            elephant: self.elephant_valve,
            released: self.released_pressure,
            minute: self.minute,
            open: self.configuration.opened(),
        }
    }
}

/// The four bytes of `n`, the lowest first.
pub open spec fn bytes32(n: int) -> Seq<u8> {
    seq![
        (n % 256) as u8,
        (n / 256 % 256) as u8,
        (n / 65536 % 256) as u8,
        (n / 16777216 % 256) as u8,
    ]
}

/// The bytes by which a state is told from others: the four letters of the two places as
/// numbers of four bytes each, the pressure in two bytes and the minute in one, low bytes
/// first. The open valves are not among them.
pub open spec fn stamp(node: NodeView) -> Seq<u8> {
    bytes32(node.human.0 as int) + bytes32(node.human.1 as int) + bytes32(node.elephant.0 as int)
        + bytes32(node.elephant.1 as int) + seq![
        (node.released % 256) as u8,
        (node.released / 256) as u8,
        node.minute,
    ]
}

/// The number by which a state is told from others: what the default hasher makes of its
/// stamp.
#[verifier::opaque]
pub open spec fn mark(node: NodeView) -> u64 {
    DefaultHasher::spec_finish(seq![stamp(node)])
}

fn push_bytes32(out: &mut Vec<u8>, c: char)
    ensures
        final(out)@ == old(out)@ + bytes32(c as int),
{
    let n = c as u32;
    out.push((n % 256) as u8);
    out.push((n / 256 % 256) as u8);
    out.push((n / 65536 % 256) as u8);
    out.push((n / 16777216 % 256) as u8);
    assert(out@ =~= old(out)@ + bytes32(c as int));
}

fn mark_of(node: &Node) -> (r: u64)
    ensures
        r == mark(node@),
{
    let mut bytes: Vec<u8> = Vec::new();
    push_bytes32(&mut bytes, node.human_valve.0);
    push_bytes32(&mut bytes, node.human_valve.1);
    push_bytes32(&mut bytes, node.elephant_valve.0);
    push_bytes32(&mut bytes, node.elephant_valve.1);
    bytes.push((node.released_pressure % 256) as u8);
    bytes.push((node.released_pressure / 256) as u8);
    bytes.push(node.minute);
    assert(bytes@ =~= stamp(node@));
    let mut hasher = DefaultHasher::new();
    hasher.write(bytes.as_slice());
    assert(hasher@ =~= seq![stamp(node@)]);
    proof {
        reveal(mark);
    }
    hasher.finish()
}

/// The states that wait to be looked at, the last one first, and the marks of all states that
/// have ever waited.
pub struct NodeContainer {
    pub nodes: Vec<Node>,
    pub visited_nodes: BTreeSet<u64>,
}

/// What the container holds.
pub struct Waiting {
    pub stack: Seq<NodeView>,
    pub seen: Set<u64>,
}

impl Waiting {
    /// The container after the state has been offered to it: the state waits unless a state
    /// with its mark has waited before.
    pub open spec fn offer(self, node: NodeView) -> Waiting {
        if self.seen.contains(mark(node)) {
            self
        } else {
            Waiting { stack: self.stack.push(node), seen: self.seen.insert(mark(node)) }
        }
    }
}

/// How many marks there are.
pub open spec fn marks() -> nat {
    0x1_0000_0000_0000_0000
}

/// No more marks are kept than there are.
pub proof fn lemma_marks_bound(seen: Set<u64>)
    requires
        seen.finite(),
    ensures
        seen.len() <= marks(),
{
    let number = |m: u64| m as int;
    let numbers = seen.map(number);
    assert(vstd::relations::injective_on(number, seen));
    vstd::set_lib::lemma_map_size(seen, numbers, number);
    vstd::set_lib::lemma_int_range(0, marks() as int);
    assert(numbers.subset_of(vstd::set_lib::set_int_range(0, marks() as int)));
    vstd::set_lib::lemma_len_subset(numbers, vstd::set_lib::set_int_range(0, marks() as int));
}

impl Waiting {
    /// What is left to a search at most: a state is looked at for each state that waits and
    /// for each mark that no state has had yet.
    pub open spec fn left(self) -> int {
        marks() - self.seen.len() + self.stack.len()
    }

    /// Offering a state leaves as much to the search as before.
    pub proof fn lemma_offer(self, node: NodeView)
        requires
            self.seen.finite(),
        ensures
            self.offer(node).seen.finite(),
            self.offer(node).left() == self.left(),
    {
    }
}

impl View for NodeContainer {
    type V = Waiting;

    open spec fn view(&self) -> Waiting {
        Waiting {
            stack: Seq::new(self.nodes@.len(), |i: int| self.nodes@[i]@),
            seen: self.visited_nodes@,
        }
    }
}

impl NodeContainer {
    /// A container in which nothing waits.
    pub fn new() -> (r: Self)
        ensures
            r@ == (Waiting { stack: Seq::empty(), seen: Set::empty() }),
    {
        let r = Self { nodes: Vec::new(), visited_nodes: BTreeSet::new() };
        assert(r@.stack =~= Seq::empty());
        r
    }

    /// Offers a state to the container.
    pub fn insert(&mut self, node: Node)
        ensures
            final(self)@ == old(self)@.offer(node@),
    {
        let hash = mark_of(&node);
        let ghost before = self@;
        if self.visited_nodes.insert(hash) {
            self.nodes.push(node);
            assert(self@.stack =~= before.stack.push(node@));
            assert(self@.seen == before.seen.insert(hash));
        } else {
            assert(self@.seen =~= before.seen);
            assert(self@.stack =~= before.stack);
        }
    }

    /// Takes the state that came to wait last.
    pub fn pop(&mut self) -> (r: Option<Node>)
        ensures
            old(self)@.stack.len() == 0 ==> r is None && final(self)@ == old(self)@,
            old(self)@.stack.len() > 0 ==> r is Some && r->0@ == old(self)@.stack.last(),
            old(self)@.stack.len() > 0 ==> final(self)@ == (Waiting {
                stack: old(self)@.stack.drop_last(),
                seen: old(self)@.seen,
            }),
    {
        let ghost before = self@;
        let r = self.nodes.pop();
        assert(before.stack.len() > 0 ==> self@.stack =~= before.stack.drop_last());
        assert(before.stack.len() == 0 ==> self@.stack =~= before.stack);
        r
    }
}

/// Tells whether two names are the same.
pub fn same_name(a: ValveName, b: ValveName) -> (r: bool)
    ensures
        r == (a == b),
{
    a.0 == b.0 && a.1 == b.1
}

/// What stands in the input on the tunnels: for each valve in turn its name with the valves
/// that its tunnels lead to and its flow rate, and again each name with its flow rate. Where a
/// name comes twice, its later tunnels count.
pub struct InputData {
    pub paths: Vec<(ValveName, Vec<ValveName>, u16)>,
    pub flow_rate: Vec<(ValveName, u16)>,
}

/// What the input data hold.
pub struct Plan {
    pub paths: Seq<(ValveName, Seq<ValveName>, u16)>,
    pub flow_rate: Seq<(ValveName, u16)>,
}

impl View for InputData {
    type V = Plan;

    open spec fn view(&self) -> Plan {
        Plan {
            paths: Seq::new(
                self.paths@.len(),
                |i: int| (self.paths@[i].0, self.paths@[i].1@, self.paths@[i].2),
            ),
            flow_rate: self.flow_rate@,
        }
    }
}

impl Plan {
    /// The tunnels and the flow rate of the valve, from the last of the first `n` entries with
    /// its name.
    pub open spec fn entry(self, name: ValveName, n: int) -> Option<(Seq<ValveName>, u16)>
        decreases n,
    {
        if n <= 0 {
            None
        } else if self.paths[n - 1].0 == name {
            Some((self.paths[n - 1].1, self.paths[n - 1].2))
        } else {
            self.entry(name, n - 1)
        }
    }

    /// The tunnels and the flow rate of the valve.
    pub open spec fn valve(self, name: ValveName) -> Option<(Seq<ValveName>, u16)> {
        self.entry(name, self.paths.len() as int)
    }

    /// What flows in a minute from the open valves among the first `n` with a flow rate;
    /// `None` when the sum cannot be held.
    pub open spec fn flow(self, open: Set<ValveName>, n: int) -> Option<u16>
        decreases n,
    {
        if n <= 0 {
            Some(0)
        } else {
            match self.flow(open, n - 1) {
                Some(acc) => if !open.contains(self.flow_rate[n - 1].0) {
                    Some(acc)
                } else if acc + self.flow_rate[n - 1].1 <= u16::MAX {
                    Some((acc + self.flow_rate[n - 1].1) as u16)
                } else {
                    None
                },
                None => None,
            }
        }
    }

    /// Whether every name is made of letters from `A` to `Z`, every tunnel leads to a valve
    /// with tunnels of its own, and there is a valve `AA`.
    pub open spec fn sound(self) -> bool {
        &&& forall|i: int| 0 <= i < self.flow_rate.len() ==> is_name((#[trigger] self.flow_rate[i]).0)
        &&& forall|i: int| 0 <= i < self.paths.len() ==> is_name((#[trigger] self.paths[i]).0)
        &&& forall|i: int, j: int|
            0 <= i < self.paths.len() && 0 <= j < self.paths[i].1.len() ==> is_name(
                #[trigger] self.paths[i].1[j],
            ) && self.valve(self.paths[i].1[j]) is Some
        &&& self.valve(('A', 'A')) is Some
    }
}

/// What flows in a minute from the valves that are open in the state.
pub fn try_get_released_pressure(node: &Node, input_data: &InputData) -> (r: Option<u16>)
    requires
        input_data@.sound(),
    ensures
        r == input_data@.flow(node@.open, input_data@.flow_rate.len() as int),
{
    let mut acc: Option<u16> = Some(0);
    let mut i: usize = 0;
    while i < input_data.flow_rate.len()
        invariant
            input_data@.sound(),
            0 <= i <= input_data.flow_rate.len(),
            acc == input_data@.flow(node@.open, i as int),
        decreases input_data.flow_rate.len() - i,
    {
        let key = input_data.flow_rate[i].0;
        let val = input_data.flow_rate[i].1;
        assert(input_data@.flow_rate[i as int] == input_data.flow_rate@[i as int]);
        acc = match acc {
            Some(a) => if node.configuration.is_open(key) {
                a.checked_add(val)
            } else {
                Some(a)
            },
            None => None,
        };
        i += 1;
    }
    acc
}

/// What flows in a minute from the valves that are open in the state.
pub fn get_released_pressure(node: &Node, input_data: &InputData) -> (r: u16)
    requires
        input_data@.sound(),
        input_data@.flow(node@.open, input_data@.flow_rate.len() as int) is Some,
    ensures
        Some(r) == input_data@.flow(node@.open, input_data@.flow_rate.len() as int),
{
    try_get_released_pressure(node, input_data).unwrap()
}

/// The state from which the search starts: both at the valve `AA`, no valve open.
pub fn get_starting_node() -> (r: Node)
    ensures
        r@ == (NodeView {
            human: ('A', 'A'),
            elephant: ('A', 'A'),
            released: 0,
            minute: 0,
            open: Set::empty(),
        }),
{
    let configuration = ValvesConfiguration::new();
    let initial_valve = ('A', 'A');
    Node {
        human_valve: initial_valve,
        elephant_valve: initial_valve,
        released_pressure: 0,
        minute: 0,
        configuration,
    }
}

impl NodeView {
    /// The state a minute later with the two at the given valves and one more valve open, or
    /// none more where `opened` is `None`, after `gain` has been released.
    pub open spec fn next(self, human: ValveName, elephant: ValveName, open: Set<ValveName>, gain: u16) -> NodeView {
        NodeView {
            human,
            elephant,
            released: (self.released + gain) as u16,
            minute: (self.minute + 1) as u8,
            open,
        }
    }
}

impl InputData {
    /// The number of the entry that counts for the valve.
    pub fn find(&self, name: ValveName) -> (r: Option<usize>)
        ensures
            r is Some == self@.valve(name) is Some,
            r is Some ==> r->0 < self.paths.len() && self@.valve(name) == Some(
                (self.paths@[r->0 as int].1@, self.paths@[r->0 as int].2),
            ),
    {
        let mut n: usize = self.paths.len();
        while n > 0
            invariant
                0 <= n <= self.paths.len(),
                self@.valve(name) == self@.entry(name, n as int),
            decreases n,
        {
            if same_name(self.paths[n - 1].0, name) {
                return Some(n - 1);
            }
            n -= 1;
        }
        None
    }
}

impl Plan {
    /// The valves to which the tunnels of the valve lead.
    pub open spec fn tunnels(self, name: ValveName) -> Seq<ValveName> {
        self.valve(name).unwrap().0
    }

    /// The flow rate of the valve.
    pub open spec fn rate(self, name: ValveName) -> u16 {
        self.valve(name).unwrap().1
    }

    /// The valves among which the elephant chooses its next one: those to which the tunnels
    /// of its valve lead, or its valve alone where no elephant takes part.
    pub open spec fn choices(self, node: NodeView, use_elephants: bool) -> Seq<ValveName> {
        if use_elephants {
            self.tunnels(node.elephant)
        } else {
            seq![node.elephant]
        }
    }

    /// What flows in a minute from the valves that are open in the state.
    pub open spec fn gain(self, node: NodeView) -> Option<u16> {
        self.flow(node.open, self.flow_rate.len() as int)
    }

    /// Whether the state can be looked at: its two valves have names of letters and tunnels,
    /// and its minute is at most `max_minute`.
    pub open spec fn fine(self, node: NodeView, max_minute: u8) -> bool {
        &&& is_name(node.human)
        &&& is_name(node.elephant)
        &&& self.valve(node.human) is Some
        &&& self.valve(node.elephant) is Some
        &&& node.minute <= max_minute
    }

    /// Whether all states that wait can be looked at.
    pub open spec fn all_fine(self, w: Waiting, max_minute: u8) -> bool {
        forall|i: int| 0 <= i < w.stack.len() ==> self.fine(#[trigger] w.stack[i], max_minute)
    }

    /// Whether the states that follow the state can be worked out: what flows in a minute can
    /// be added up and added to what has been released, and another minute can pass.
    pub open spec fn calm(self, node: NodeView, max_minute: u8) -> bool {
        &&& self.gain(node) is Some
        &&& node.released + self.gain(node).unwrap() <= u16::MAX
        &&& node.minute < max_minute
    }

    /// The container after both have opened their valves.
    pub open spec fn both_opened(self, w: Waiting, node: NodeView, use_elephants: bool) -> Waiting {
        let open = if use_elephants {
            node.open.insert(node.elephant)
        } else {
            node.open
        };
        w.offer(
            node.next(node.human, node.elephant, open.insert(node.human), self.gain(node).unwrap()),
        )
    }

    /// The container after the human has opened a valve while the elephant has moved on to
    /// one of its first `n` choices, unless that valve and the human's were both open.
    pub open spec fn human_opened(self, w: Waiting, node: NodeView, use_elephants: bool, n: int) -> Waiting
        decreases n,
    {
        if n <= 0 {
            w
        } else {
            let before = self.human_opened(w, node, use_elephants, n - 1);
            let path = self.choices(node, use_elephants)[n - 1];
            if node.open.contains(node.human) && node.open.contains(path) {
                before
            } else {
                before.offer(
                    node.next(
                        node.human,
                        path,
                        node.open.insert(node.human),
                        self.gain(node).unwrap(),
                    ),
                )
            }
        }
    }

    /// The container after the elephant has opened a valve while the human has moved on
    /// through one of the first `n` tunnels, unless the valve there and the elephant's were
    /// both open.
    pub open spec fn elephant_opened(self, w: Waiting, node: NodeView, n: int) -> Waiting
        decreases n,
    {
        if n <= 0 {
            w
        } else {
            let before = self.elephant_opened(w, node, n - 1);
            let path = self.tunnels(node.human)[n - 1];
            if node.open.contains(node.elephant) && node.open.contains(path) {
                before
            } else {
                before.offer(
                    node.next(
                        path,
                        node.elephant,
                        node.open.insert(node.elephant),
                        self.gain(node).unwrap(),
                    ),
                )
            }
        }
    }

    /// The container after the elephant has moved on to `path_elephant` and the human through
    /// one of the first `m` tunnels, unless the valves at both ends were open.
    pub open spec fn moved_with(self, w: Waiting, node: NodeView, path_elephant: ValveName, m: int) -> Waiting
        decreases m,
    {
        if m <= 0 {
            w
        } else {
            let before = self.moved_with(w, node, path_elephant, m - 1);
            let path_human = self.tunnels(node.human)[m - 1];
            if node.open.contains(path_elephant) && node.open.contains(path_human) {
                before
            } else {
                before.offer(
                    node.next(path_human, path_elephant, node.open, self.gain(node).unwrap()),
                )
            }
        }
    }

    /// The container after both have moved on, the elephant to one of its first `n` choices.
    pub open spec fn both_moved(self, w: Waiting, node: NodeView, use_elephants: bool, n: int) -> Waiting
        decreases n,
    {
        if n <= 0 {
            w
        } else {
            self.moved_with(
                self.both_moved(w, node, use_elephants, n - 1),
                node,
                self.choices(node, use_elephants)[n - 1],
                self.tunnels(node.human).len() as int,
            )
        }
    }
}

impl Plan {
    /// Offering the state in which both open their valves leaves as much to the search.
    pub proof fn lemma_both_opened(self, w: Waiting, node: NodeView, use_elephants: bool)
        requires
            w.seen.finite(),
        ensures
            self.both_opened(w, node, use_elephants).seen.finite(),
            self.both_opened(w, node, use_elephants).left() == w.left(),
    {
        let open = if use_elephants {
            node.open.insert(node.elephant)
        } else {
            node.open
        };
        w.lemma_offer(
            node.next(node.human, node.elephant, open.insert(node.human), self.gain(node).unwrap()),
        );
    }

    /// Offering the states in which the human opens its valve leaves as much to the search.
    pub proof fn lemma_human_opened(self, w: Waiting, node: NodeView, use_elephants: bool, n: int)
        requires
            w.seen.finite(),
        ensures
            self.human_opened(w, node, use_elephants, n).seen.finite(),
            self.human_opened(w, node, use_elephants, n).left() == w.left(),
        decreases n,
    {
        if n > 0 {
            self.lemma_human_opened(w, node, use_elephants, n - 1);
            let before = self.human_opened(w, node, use_elephants, n - 1);
            let path = self.choices(node, use_elephants)[n - 1];
            before.lemma_offer(
                node.next(node.human, path, node.open.insert(node.human), self.gain(node).unwrap()),
            );
        }
    }

    /// Offering the states in which the elephant opens its valve leaves as much to the
    /// search.
    pub proof fn lemma_elephant_opened(self, w: Waiting, node: NodeView, n: int)
        requires
            w.seen.finite(),
        ensures
            self.elephant_opened(w, node, n).seen.finite(),
            self.elephant_opened(w, node, n).left() == w.left(),
        decreases n,
    {
        if n > 0 {
            self.lemma_elephant_opened(w, node, n - 1);
            let before = self.elephant_opened(w, node, n - 1);
            let path = self.tunnels(node.human)[n - 1];
            before.lemma_offer(
                node.next(
                    path,
                    node.elephant,
                    node.open.insert(node.elephant),
                    self.gain(node).unwrap(),
                ),
            );
        }
    }

    /// Offering the states in which the human moves on leaves as much to the search.
    pub proof fn lemma_moved_with(self, w: Waiting, node: NodeView, path_elephant: ValveName, m: int)
        requires
            w.seen.finite(),
        ensures
            self.moved_with(w, node, path_elephant, m).seen.finite(),
            self.moved_with(w, node, path_elephant, m).left() == w.left(),
        decreases m,
    {
        if m > 0 {
            self.lemma_moved_with(w, node, path_elephant, m - 1);
            let before = self.moved_with(w, node, path_elephant, m - 1);
            let path_human = self.tunnels(node.human)[m - 1];
            before.lemma_offer(
                node.next(path_human, path_elephant, node.open, self.gain(node).unwrap()),
            );
        }
    }

    /// Offering the states in which both move on leaves as much to the search.
    pub proof fn lemma_both_moved(self, w: Waiting, node: NodeView, use_elephants: bool, n: int)
        requires
            w.seen.finite(),
        ensures
            self.both_moved(w, node, use_elephants, n).seen.finite(),
            self.both_moved(w, node, use_elephants, n).left() == w.left(),
        decreases n,
    {
        if n > 0 {
            self.lemma_both_moved(w, node, use_elephants, n - 1);
            self.lemma_moved_with(
                self.both_moved(w, node, use_elephants, n - 1),
                node,
                self.choices(node, use_elephants)[n - 1],
                self.tunnels(node.human).len() as int,
            );
        }
    }
}

/// A state that can be looked at stays so in a container to which a state has been offered
/// that can be looked at.
proof fn lemma_offer_fine(data: Plan, w: Waiting, node: NodeView, max_minute: u8)
    requires
        data.all_fine(w, max_minute),
        data.fine(node, max_minute),
    ensures
        data.all_fine(w.offer(node), max_minute),
{
    let next = w.offer(node);
    assert forall|i: int| 0 <= i < next.stack.len() implies data.fine(
        #[trigger] next.stack[i],
        max_minute,
    ) by {
        if i < w.stack.len() {
            assert(next.stack[i] == w.stack[i]);
        }
    }
}

/// The tunnels of a valve lead to valves with names of letters and tunnels of their own.
proof fn lemma_tunnels_sound(data: Plan, name: ValveName, n: int, j: int)
    requires
        data.sound(),
        0 <= n <= data.paths.len(),
        data.entry(name, n) is Some,
        0 <= j < data.entry(name, n).unwrap().0.len(),
    ensures
        is_name(data.entry(name, n).unwrap().0[j]),
        data.valve(data.entry(name, n).unwrap().0[j]) is Some,
    decreases n,
{
    if data.paths[n - 1].0 == name {
        assert(is_name(data.paths[n - 1].1[j]));
    } else {
        lemma_tunnels_sound(data, name, n - 1, j);
    }
}

/// The valves to which the tunnels of the valve lead, copied.
fn tunnels_of(input_data: &InputData, name: ValveName) -> (r: Vec<ValveName>)
    requires
        input_data@.sound(),
        input_data@.valve(name) is Some,
    ensures
        r@ == input_data@.tunnels(name),
        forall|j: int| 0 <= j < r.len() ==> is_name(#[trigger] r[j]) && input_data@.valve(r[j]) is Some,
{
    let at = input_data.find(name).unwrap();
    let list = &input_data.paths[at].1;
    let mut r: Vec<ValveName> = Vec::new();
    let mut j: usize = 0;
    while j < list.len()
        invariant
            0 <= j <= list.len(),
            r@ == list@.take(j as int),
        decreases list.len() - j,
    {
        r.push(list[j]);
        assert(r@ =~= list@.take(j + 1));
        j += 1;
    }
    assert(list@.take(list.len() as int) =~= list@);
    assert forall|j: int| 0 <= j < r.len() implies is_name(#[trigger] r[j]) && input_data@.valve(
        r[j],
    ) is Some by {
        lemma_tunnels_sound(input_data@, name, input_data.paths@.len() as int, j);
    }
    r
}

/// The valves among which the elephant chooses its next one.
fn choices_of(input_data: &InputData, node: &Node, use_elephants: bool) -> (r: Vec<ValveName>)
    requires
        input_data@.sound(),
        is_name(node@.elephant),
        input_data@.valve(node@.elephant) is Some,
    ensures
        r@ == input_data@.choices(node@, use_elephants),
        forall|j: int| 0 <= j < r.len() ==> is_name(#[trigger] r[j]) && input_data@.valve(r[j]) is Some,
{
    if use_elephants {
        tunnels_of(input_data, node.elephant_valve)
    } else {
        let mut r: Vec<ValveName> = Vec::new();
        r.push(node.elephant_valve);
        assert(r@ =~= seq![node.elephant_valve]);
        r
    }
}

/// Offers the state in which the human has opened its valve, for each valve that the elephant
/// can move on to.
pub fn human_opens(node: &Node, nodes: &mut NodeContainer, input_data: &InputData, use_elephants: bool)
    requires
        input_data@.sound(),
        exists|max_minute: u8|
            input_data@.fine(node@, max_minute) && input_data@.calm(node@, max_minute)
                && input_data@.all_fine(old(nodes)@, max_minute),
    ensures
        final(nodes)@ == input_data@.human_opened(
            old(nodes)@,
            node@,
            use_elephants,
            input_data@.choices(node@, use_elephants).len() as int,
        ),
        forall|max_minute: u8|
            input_data@.fine(node@, max_minute) && input_data@.calm(node@, max_minute)
                && input_data@.all_fine(old(nodes)@, max_minute) ==> input_data@.all_fine(
                final(nodes)@,
                max_minute,
            ),
{
    let path_elephants = choices_of(input_data, node, use_elephants);
    let ghost start = nodes@;
    let mut i: usize = 0;
    while i < path_elephants.len()
        invariant
            input_data@.sound(),
            exists|max_minute: u8|
                input_data@.fine(node@, max_minute) && input_data@.calm(node@, max_minute),
            path_elephants@ == input_data@.choices(node@, use_elephants),
            forall|j: int|
                0 <= j < path_elephants.len() ==> is_name(#[trigger] path_elephants[j])
                    && input_data@.valve(path_elephants[j]) is Some,
            0 <= i <= path_elephants.len(),
            nodes@ == input_data@.human_opened(start, node@, use_elephants, i as int),
            forall|max_minute: u8|
                input_data@.fine(node@, max_minute) && input_data@.calm(node@, max_minute)
                    && input_data@.all_fine(start, max_minute) ==> input_data@.all_fine(
                    nodes@,
                    max_minute,
                ),
        decreases path_elephants.len() - i,
    {
        let path = path_elephants[i];
        if !(node.configuration.is_open(node.human_valve) && node.configuration.is_open(path)) {
            let mut new_configuration = node.configuration.copy();
            new_configuration.open(&node.human_valve);
            let released_pressure = get_released_pressure(node, input_data);
            let new_node = Node {
                human_valve: node.human_valve,
                elephant_valve: path,
                released_pressure: node.released_pressure + released_pressure,
                minute: node.minute + 1,
                configuration: new_configuration,
            };
            proof {
                let before = nodes@;
                assert forall|max_minute: u8|
                    input_data@.fine(node@, max_minute) && input_data@.calm(node@, max_minute)
                        && input_data@.all_fine(start, max_minute) implies input_data@.all_fine(
                    before.offer(new_node@),
                    max_minute,
                ) by {
                    lemma_offer_fine(input_data@, before, new_node@, max_minute);
                }
            }
            nodes.insert(new_node);
        }
        i += 1;
    }
}

/// Offers the state in which the elephant has opened its valve, for each valve that the human
/// can move on to.
pub fn elephant_opens(node: &Node, nodes: &mut NodeContainer, input_data: &InputData, _use_elephants: bool)
    requires
        input_data@.sound(),
        exists|max_minute: u8|
            input_data@.fine(node@, max_minute) && input_data@.calm(node@, max_minute)
                && input_data@.all_fine(old(nodes)@, max_minute),
    ensures
        final(nodes)@ == input_data@.elephant_opened(
            old(nodes)@,
            node@,
            input_data@.tunnels(node@.human).len() as int,
        ),
        forall|max_minute: u8|
            input_data@.fine(node@, max_minute) && input_data@.calm(node@, max_minute)
                && input_data@.all_fine(old(nodes)@, max_minute) ==> input_data@.all_fine(
                final(nodes)@,
                max_minute,
            ),
{
    let paths = tunnels_of(input_data, node.human_valve);
    let ghost start = nodes@;
    let mut i: usize = 0;
    while i < paths.len()
        invariant
            input_data@.sound(),
            exists|max_minute: u8|
                input_data@.fine(node@, max_minute) && input_data@.calm(node@, max_minute),
            paths@ == input_data@.tunnels(node@.human),
            forall|j: int|
                0 <= j < paths.len() ==> is_name(#[trigger] paths[j]) && input_data@.valve(paths[j]) is Some,
            0 <= i <= paths.len(),
            nodes@ == input_data@.elephant_opened(start, node@, i as int),
            forall|max_minute: u8|
                input_data@.fine(node@, max_minute) && input_data@.calm(node@, max_minute)
                    && input_data@.all_fine(start, max_minute) ==> input_data@.all_fine(
                    nodes@,
                    max_minute,
                ),
        decreases paths.len() - i,
    {
        let path = paths[i];
        if !(node.configuration.is_open(node.elephant_valve) && node.configuration.is_open(path)) {
            let mut new_configuration = node.configuration.copy();
            new_configuration.open(&node.elephant_valve);
            let released_pressure = get_released_pressure(node, input_data);
            let new_node = Node {
                human_valve: path,
                elephant_valve: node.elephant_valve,
                released_pressure: node.released_pressure + released_pressure,
                minute: node.minute + 1,
                configuration: new_configuration,
            };
            proof {
                let before = nodes@;
                assert forall|max_minute: u8|
                    input_data@.fine(node@, max_minute) && input_data@.calm(node@, max_minute)
                        && input_data@.all_fine(start, max_minute) implies input_data@.all_fine(
                    before.offer(new_node@),
                    max_minute,
                ) by {
                    lemma_offer_fine(input_data@, before, new_node@, max_minute);
                }
            }
            nodes.insert(new_node);
        }
        i += 1;
    }
}

/// Offers the state in which both have opened their valves; the elephant opens none where no
/// elephant takes part.
pub fn both_opens(node: &Node, nodes: &mut NodeContainer, input_data: &InputData, use_elephants: bool)
    requires
        input_data@.sound(),
        exists|max_minute: u8|
            input_data@.fine(node@, max_minute) && input_data@.calm(node@, max_minute)
                && input_data@.all_fine(old(nodes)@, max_minute),
    ensures
        final(nodes)@ == input_data@.both_opened(old(nodes)@, node@, use_elephants),
        forall|max_minute: u8|
            input_data@.fine(node@, max_minute) && input_data@.calm(node@, max_minute)
                && input_data@.all_fine(old(nodes)@, max_minute) ==> input_data@.all_fine(
                final(nodes)@,
                max_minute,
            ),
{
    let mut new_configuration = node.configuration.copy();
    if use_elephants {
        new_configuration.open(&node.elephant_valve);
    }
    new_configuration.open(&node.human_valve);
    let released_pressure = get_released_pressure(node, input_data);
    let new_node = Node {
        human_valve: node.human_valve,
        elephant_valve: node.elephant_valve,
        released_pressure: node.released_pressure + released_pressure,
        minute: node.minute + 1,
        configuration: new_configuration,
    };
    proof {
        let before = nodes@;
        assert forall|max_minute: u8|
            input_data@.fine(node@, max_minute) && input_data@.calm(node@, max_minute)
                && input_data@.all_fine(before, max_minute) implies input_data@.all_fine(
            before.offer(new_node@),
            max_minute,
        ) by {
            lemma_offer_fine(input_data@, before, new_node@, max_minute);
        }
    }
    nodes.insert(new_node);
}

/// Offers the states in which both have moved on, for each pair of valves that the two can
/// move on to.
pub fn both_moves(node: &Node, nodes: &mut NodeContainer, input_data: &InputData, use_elephants: bool)
    requires
        input_data@.sound(),
        exists|max_minute: u8|
            input_data@.fine(node@, max_minute) && input_data@.calm(node@, max_minute)
                && input_data@.all_fine(old(nodes)@, max_minute),
    ensures
        final(nodes)@ == input_data@.both_moved(
            old(nodes)@,
            node@,
            use_elephants,
            input_data@.choices(node@, use_elephants).len() as int,
        ),
        forall|max_minute: u8|
            input_data@.fine(node@, max_minute) && input_data@.calm(node@, max_minute)
                && input_data@.all_fine(old(nodes)@, max_minute) ==> input_data@.all_fine(
                final(nodes)@,
                max_minute,
            ),
{
    let path_elephants = choices_of(input_data, node, use_elephants);
    let path_humans = tunnels_of(input_data, node.human_valve);
    let ghost start = nodes@;
    let mut i: usize = 0;
    while i < path_elephants.len()
        invariant
            input_data@.sound(),
            exists|max_minute: u8|
                input_data@.fine(node@, max_minute) && input_data@.calm(node@, max_minute),
            path_elephants@ == input_data@.choices(node@, use_elephants),
            path_humans@ == input_data@.tunnels(node@.human),
            forall|j: int|
                0 <= j < path_elephants.len() ==> is_name(#[trigger] path_elephants[j])
                    && input_data@.valve(path_elephants[j]) is Some,
            forall|j: int|
                0 <= j < path_humans.len() ==> is_name(#[trigger] path_humans[j])
                    && input_data@.valve(path_humans[j]) is Some,
            0 <= i <= path_elephants.len(),
            nodes@ == input_data@.both_moved(start, node@, use_elephants, i as int),
            forall|max_minute: u8|
                input_data@.fine(node@, max_minute) && input_data@.calm(node@, max_minute)
                    && input_data@.all_fine(start, max_minute) ==> input_data@.all_fine(
                    nodes@,
                    max_minute,
                ),
        decreases path_elephants.len() - i,
    {
        let path_elephant = path_elephants[i];
        let ghost row = nodes@;
        let mut k: usize = 0;
        while k < path_humans.len()
            invariant
                input_data@.sound(),
                exists|max_minute: u8|
                    input_data@.fine(node@, max_minute) && input_data@.calm(node@, max_minute),
                path_humans@ == input_data@.tunnels(node@.human),
                is_name(path_elephant),
                input_data@.valve(path_elephant) is Some,
                forall|j: int|
                    0 <= j < path_humans.len() ==> is_name(#[trigger] path_humans[j])
                        && input_data@.valve(path_humans[j]) is Some,
                0 <= k <= path_humans.len(),
                nodes@ == input_data@.moved_with(row, node@, path_elephant, k as int),
                forall|max_minute: u8|
                    input_data@.fine(node@, max_minute) && input_data@.calm(node@, max_minute)
                        && input_data@.all_fine(start, max_minute) ==> input_data@.all_fine(
                        nodes@,
                        max_minute,
                    ),
            decreases path_humans.len() - k,
        {
            let path_human = path_humans[k];
            if !(node.configuration.is_open(path_elephant) && node.configuration.is_open(path_human)) {
                let released_pressure = get_released_pressure(node, input_data);
                let new_node = Node {
                    human_valve: path_human,
                    elephant_valve: path_elephant,
                    released_pressure: node.released_pressure + released_pressure,
                    minute: node.minute + 1,
                    configuration: node.configuration.copy(),
                };
                proof {
                    let before = nodes@;
                    assert forall|max_minute: u8|
                        input_data@.fine(node@, max_minute) && input_data@.calm(node@, max_minute)
                            && input_data@.all_fine(start, max_minute) implies input_data@.all_fine(
                        before.offer(new_node@),
                        max_minute,
                    ) by {
                        lemma_offer_fine(input_data@, before, new_node@, max_minute);
                    }
                }
                nodes.insert(new_node);
            }
            k += 1;
        }
        i += 1;
    }
}

/// What the search holds: the states that wait, and the most pressure that a state looked at
/// has released.
pub struct Hunt {
    pub waiting: Waiting,
    pub best: u16,
}

impl Plan {
    /// The search after the state that came to wait last has been looked at. Unless its minute
    /// is `max_minute`, the states that follow it are offered to the container: first the one
    /// in which both open their valves, then those in which the human opens its valve, then
    /// those in which the elephant does, then those in which both move on. A valve can be
    /// opened if it is closed and has a flow rate above 0; the elephant opens one only where
    /// it takes part. `None` when the states that follow cannot be worked out.
    pub open spec fn advance(self, hunt: Hunt, max_minute: u8, use_elephants: bool) -> Option<Hunt> {
        let node = hunt.waiting.stack.last();
        let rest = Waiting { stack: hunt.waiting.stack.drop_last(), seen: hunt.waiting.seen };
        let best = if hunt.best > node.released {
            hunt.best
        } else {
            node.released
        };
        if node.minute == max_minute {
            Some(Hunt { waiting: rest, best })
        } else if !self.calm(node, max_minute) {
            None
        } else {
            let can_human_open = !node.open.contains(node.human) && self.rate(node.human) > 0;
            let can_elephant_open = !node.open.contains(node.elephant) && self.rate(node.elephant)
                > 0;
            let w1 = if use_elephants && can_elephant_open && can_human_open {
                self.both_opened(rest, node, use_elephants)
            } else {
                rest
            };
            let w2 = if can_human_open {
                self.human_opened(
                    w1,
                    node,
                    use_elephants,
                    self.choices(node, use_elephants).len() as int,
                )
            } else {
                w1
            };
            let w3 = if use_elephants && can_elephant_open {
                self.elephant_opened(w2, node, self.tunnels(node.human).len() as int)
            } else {
                w2
            };
            Some(
                Hunt {
                    waiting: self.both_moved(
                        w3,
                        node,
                        use_elephants,
                        self.choices(node, use_elephants).len() as int,
                    ),
                    best,
                },
            )
        }
    }

    /// The search after states have been looked at until none waits, or until `fuel` states
    /// have been looked at.
    pub open spec fn hunted(self, hunt: Hunt, max_minute: u8, use_elephants: bool, fuel: nat) -> Option<Hunt>
        decreases fuel,
    {
        if fuel == 0 || hunt.waiting.stack.len() == 0 {
            Some(hunt)
        } else {
            match self.advance(hunt, max_minute, use_elephants) {
                Some(next) => self.hunted(next, max_minute, use_elephants, (fuel - 1) as nat),
                None => None,
            }
        }
    }

    /// The most pressure that a state of the search has released within `max_minute` minutes.
    pub open spec fn most(self, max_minute: u8, use_elephants: bool) -> Option<u16> {
        let start = NodeView {
            human: ('A', 'A'),
            elephant: ('A', 'A'),
            released: 0,
            minute: 0,
            open: Set::empty(),
        };
        let first = (Waiting { stack: Seq::empty(), seen: Set::empty() }).offer(start);
        match self.hunted(Hunt { waiting: first, best: 0 }, max_minute, use_elephants, marks()) {
            Some(hunt) => Some(hunt.best),
            None => None,
        }
    }

    /// Looking at a state leaves less to the search.
    pub proof fn lemma_advance(self, hunt: Hunt, max_minute: u8, use_elephants: bool)
        requires
            hunt.waiting.seen.finite(),
            hunt.waiting.stack.len() > 0,
            self.advance(hunt, max_minute, use_elephants) is Some,
        ensures
            self.advance(hunt, max_minute, use_elephants)->0.waiting.seen.finite(),
            self.advance(hunt, max_minute, use_elephants)->0.waiting.left() == hunt.waiting.left() - 1,
    {
        let node = hunt.waiting.stack.last();
        let rest = Waiting { stack: hunt.waiting.stack.drop_last(), seen: hunt.waiting.seen };
        assert(rest.left() == hunt.waiting.left() - 1);
        if node.minute != max_minute {
            let can_human_open = !node.open.contains(node.human) && self.rate(node.human) > 0;
            let can_elephant_open = !node.open.contains(node.elephant) && self.rate(node.elephant)
                > 0;
            let w1 = if use_elephants && can_elephant_open && can_human_open {
                self.both_opened(rest, node, use_elephants)
            } else {
                rest
            };
            self.lemma_both_opened(rest, node, use_elephants);
            let w2 = if can_human_open {
                self.human_opened(
                    w1,
                    node,
                    use_elephants,
                    self.choices(node, use_elephants).len() as int,
                )
            } else {
                w1
            };
            self.lemma_human_opened(
                w1,
                node,
                use_elephants,
                self.choices(node, use_elephants).len() as int,
            );
            let w3 = if use_elephants && can_elephant_open {
                self.elephant_opened(w2, node, self.tunnels(node.human).len() as int)
            } else {
                w2
            };
            self.lemma_elephant_opened(w2, node, self.tunnels(node.human).len() as int);
            self.lemma_both_moved(
                w3,
                node,
                use_elephants,
                self.choices(node, use_elephants).len() as int,
            );
        }
    }

    /// A search that may look at as many states as are left to it ends with no state
    /// waiting.
    pub proof fn lemma_hunted_ends(self, hunt: Hunt, max_minute: u8, use_elephants: bool, fuel: nat)
        requires
            hunt.waiting.seen.finite(),
            fuel >= hunt.waiting.left(),
        ensures
            self.hunted(hunt, max_minute, use_elephants, fuel) matches Some(last)
                ==> last.waiting.stack.len() == 0,
        decreases fuel,
    {
        lemma_marks_bound(hunt.waiting.seen);
        if fuel > 0 && hunt.waiting.stack.len() > 0 {
            if self.advance(hunt, max_minute, use_elephants) is Some {
                self.lemma_advance(hunt, max_minute, use_elephants);
                self.lemma_hunted_ends(
                    self.advance(hunt, max_minute, use_elephants)->0,
                    max_minute,
                    use_elephants,
                    (fuel - 1) as nat,
                );
            }
        }
    }

    /// The search is complete: it ends with no state waiting before it has looked at as many
    /// states as there are marks, unless the states that follow a state cannot be worked out.
    pub proof fn lemma_search_is_complete(self, max_minute: u8, use_elephants: bool)
        ensures
            ({
                let start = NodeView {
                    human: ('A', 'A'),
                    elephant: ('A', 'A'),
                    released: 0,
                    minute: 0,
                    open: Set::empty(),
                };
                let first = (Waiting { stack: Seq::empty(), seen: Set::empty() }).offer(start);
                self.hunted(Hunt { waiting: first, best: 0 }, max_minute, use_elephants, marks())
                    matches Some(last) ==> last.waiting.stack.len() == 0
            }),
    {
        let start = NodeView {
            human: ('A', 'A'),
            elephant: ('A', 'A'),
            released: 0,
            minute: 0,
            open: Set::empty(),
        };
        let none = Waiting { stack: Seq::empty(), seen: Set::empty() };
        none.lemma_offer(start);
        self.lemma_hunted_ends(
            Hunt { waiting: none.offer(start), best: 0 },
            max_minute,
            use_elephants,
            marks(),
        );
    }
}

/// Looks for the most pressure that can be released, if the states can be worked out.
pub fn try_solve(input_data: &InputData, max_minute: u8, use_elephants: bool) -> (r: Option<u16>)
    requires
        input_data@.sound(),
    ensures
        r == input_data@.most(max_minute, use_elephants),
{
    let mut nodes = NodeContainer::new();
    nodes.insert(get_starting_node());
    let ghost first = Hunt { waiting: nodes@, best: 0 };
    assert(input_data@.all_fine(nodes@, max_minute)) by {
        assert forall|i: int| 0 <= i < nodes@.stack.len() implies input_data@.fine(
            #[trigger] nodes@.stack[i],
            max_minute,
        ) by {
            broadcast use vstd::seq::group_seq_axioms;

        }
    }
    let mut max_flow_rate: u16 = 0;
    let mut fuel: u128 = 0x1_0000_0000_0000_0000;
    let mut going = true;
    while going && fuel > 0
        invariant
            input_data@.sound(),
            input_data@.all_fine(nodes@, max_minute),
            input_data@.most(max_minute, use_elephants) == match input_data@.hunted(
                first,
                max_minute,
                use_elephants,
                marks(),
            ) {
                Some(hunt) => Some(hunt.best),
                None => None,
            },
            going ==> input_data@.hunted(first, max_minute, use_elephants, marks()) == input_data@.hunted(
                Hunt { waiting: nodes@, best: max_flow_rate },
                max_minute,
                use_elephants,
                fuel as nat,
            ),
            !going ==> input_data@.hunted(first, max_minute, use_elephants, marks()) == Some(
                Hunt { waiting: nodes@, best: max_flow_rate },
            ),
        decreases
                fuel + if going {
                    1int
                } else {
                    0int
                },
    {
        let ghost now = Hunt { waiting: nodes@, best: max_flow_rate };
        match nodes.pop() {
            None => {
                going = false;
            },
            Some(node) => {
                assert(input_data@.fine(node@, max_minute)) by {
                    assert(node@ == now.waiting.stack[now.waiting.stack.len() - 1]);
                }
                assert(input_data@.all_fine(nodes@, max_minute)) by {
                    assert forall|i: int| 0 <= i < nodes@.stack.len() implies input_data@.fine(
                        #[trigger] nodes@.stack[i],
                        max_minute,
                    ) by {
                        assert(nodes@.stack[i] == now.waiting.stack[i]);
                    }
                }
                if node.released_pressure > max_flow_rate {
                    max_flow_rate = node.released_pressure;
                }
                if node.minute != max_minute {
                    let fits = match try_get_released_pressure(&node, input_data) {
                        Some(gain) => gain <= u16::MAX - node.released_pressure,
                        None => false,
                    };
                    if !fits {
                        assert(input_data@.advance(now, max_minute, use_elephants) is None);
                        assert(input_data@.hunted(now, max_minute, use_elephants, fuel as nat) is None);
                        return None;
                    }
                    let human = input_data.find(node.human_valve).unwrap();
                    let elephant = input_data.find(node.elephant_valve).unwrap();
                    let can_human_open = !node.configuration.is_open(node.human_valve)
                        && input_data.paths[human].2 > 0;
                    let can_elephant_open = !node.configuration.is_open(node.elephant_valve)
                        && input_data.paths[elephant].2 > 0;
                    if use_elephants && can_elephant_open && can_human_open {
                        both_opens(&node, &mut nodes, input_data, use_elephants);
                    }
                    if can_human_open {
                        human_opens(&node, &mut nodes, input_data, use_elephants);
                    }
                    if use_elephants && can_elephant_open {
                        elephant_opens(&node, &mut nodes, input_data, use_elephants);
                    }
                    both_moves(&node, &mut nodes, input_data, use_elephants);
                }
                fuel -= 1;
            },
        }
    }
    Some(max_flow_rate)
}

/// Looks for the most pressure that can be released.
pub fn solve(input_data: &InputData, max_minute: u8, use_elephants: bool) -> (r: u16)
    requires
        input_data@.sound(),
        input_data@.most(max_minute, use_elephants) is Some,
    ensures
        Some(r) == input_data@.most(max_minute, use_elephants),
{
    try_solve(input_data, max_minute, use_elephants).unwrap()
}

/// The name written at position `from`: the two characters there; `None` when fewer are
/// left.
pub open spec fn name_at(s: Seq<char>, from: int) -> Option<(ValveName, int)> {
    if 0 <= from && from + 2 <= s.len() {
        Some(((s[from], s[from + 1]), from + 2))
    } else {
        None
    }
}

/// The names that follow at position `from`, each after a comma and a blank, added to `names`,
/// and the position after them; `None` when the input ends within a name.
pub open spec fn more_names(s: Seq<char>, from: int, names: Seq<ValveName>) -> Option<
    (Seq<ValveName>, int),
>
    decreases s.len() - from,
{
    match tagged(s, from, ", "@) {
        None => Some((names, from)),
        Some(a) => match name_at(s, a) {
            Some((name, to)) if from < to <= s.len() => more_names(s, to, names.push(name)),
            _ => None,
        },
    }
}

/// Where the list of tunnels begins after the flow rate, which ends at position `from`.
pub open spec fn tunnels_at(s: Seq<char>, from: int) -> Option<int> {
    match tagged(s, from, ";"@) {
        Some(a) => match tagged(s, a, " tunnels lead to valves "@) {
            Some(b) => Some(b),
            None => tagged(s, a, " tunnel leads to valve "@),
        },
        None => None,
    }
}

/// The valve written at position `from`, with the valves to which its tunnels lead and its
/// flow rate, and the position after it. The inner `None` stands for a line that writes no
/// valve, the outer one for input that ends within a name.
pub open spec fn line_at(s: Seq<char>, from: int) -> Option<
    Option<((ValveName, Seq<ValveName>, u16), int)>,
> {
    match tagged(s, from, "Valve "@) {
        None => Some(None),
        Some(a) => match name_at(s, a) {
            None => None,
            Some((name, b)) => {
                let rate = match tagged(s, b, " has flow rate="@) {
                    Some(c) => natural(s, c, u16::MAX as int),
                    None => None,
                };
                let list = match rate {
                    Some((_, d)) => tunnels_at(s, d),
                    None => None,
                };
                match list {
                    None => Some(None),
                    Some(e) => match name_at(s, e) {
                        None => None,
                        Some((first, f)) => match more_names(s, f, seq![first]) {
                            None => None,
                            Some((names, to)) => Some(
                                Some(((name, names, rate.unwrap().0 as u16), to)),
                            ),
                        },
                    },
                }
            },
        }
    }
}

/// The valves that follow at position `from`, each after a line feed, added to `valves`;
/// `None` when the input ends within a name.
pub open spec fn more_lines(
    s: Seq<char>,
    from: int,
    valves: Seq<(ValveName, Seq<ValveName>, u16)>,
) -> Option<Seq<(ValveName, Seq<ValveName>, u16)>>
    decreases s.len() - from,
{
    if 0 <= from < s.len() && s[from] == '\n' {
        match line_at(s, from + 1) {
            None => None,
            Some(None) => Some(valves),
            Some(Some((valve, to))) => if from < to <= s.len() {
                more_lines(s, to, valves.push(valve))
            } else {
                Some(valves)
            },
        }
    } else {
        Some(valves)
    }
}

/// The valves that `input` writes, one in each line, up to the first line that writes none;
/// `None` when the first line writes none or the input ends within a name.
pub open spec fn valves_of(input: Seq<char>) -> Option<Seq<(ValveName, Seq<ValveName>, u16)>> {
    match line_at(input, 0) {
        Some(Some((valve, to))) => more_lines(input, to, seq![valve]),
        _ => None,
    }
}

/// The input data for the valves.
pub open spec fn plan_of(valves: Seq<(ValveName, Seq<ValveName>, u16)>) -> Plan {
    Plan { paths: valves, flow_rate: Seq::new(valves.len(), |i: int| (valves[i].0, valves[i].2)) }
}

fn parse_valve_name(v: &Vec<char>, from: usize) -> (r: Option<(ValveName, usize)>)
    ensures
        r is Some == name_at(v@, from as int) is Some,
        r matches Some(p) ==> name_at(v@, from as int) == Some((p.0, p.1 as int)),
        r matches Some(p) ==> from < p.1 <= v.len(),
{
    if from < v.len() && v.len() - from >= 2 {
        Some(((v[from], v[from + 1]), from + 2))
    } else {
        None
    }
}

fn parse_line(v: &Vec<char>, from: usize) -> (r: Option<Option<((ValveName, Vec<ValveName>, u16), usize)>>)
    ensures
        r is Some == line_at(v@, from as int) is Some,
        r matches Some(q) ==> (q is Some == line_at(v@, from as int).unwrap() is Some),
        r matches Some(Some(p)) ==> line_at(v@, from as int) == Some(
            Some(((p.0.0, p.0.1@, p.0.2), p.1 as int)),
        ) && from < p.1 <= v.len(),
{
    let a = match tag(v, from, "Valve ") {
        Some(a) => a,
        None => {
            return Some(None);
        },
    };
    let (name, b) = match parse_valve_name(v, a) {
        Some(p) => p,
        None => {
            return None;
        },
    };
    let c = match tag(v, b, " has flow rate=") {
        Some(c) => c,
        None => {
            return Some(None);
        },
    };
    let (flow_rate, d) = match read_natural(v, c, u16::MAX as u64) {
        Some(p) => p,
        None => {
            return Some(None);
        },
    };
    let e = match tag(v, d, ";") {
        Some(e) => e,
        None => {
            return Some(None);
        },
    };
    let f = match tag(v, e, " tunnels lead to valves ") {
        Some(f) => f,
        None => match tag(v, e, " tunnel leads to valve ") {
            Some(f) => f,
            None => {
                return Some(None);
            },
        },
    };
    let (first, start) = match parse_valve_name(v, f) {
        Some(p) => p,
        None => {
            return None;
        },
    };
    let mut paths: Vec<ValveName> = Vec::new();
    paths.push(first);
    assert(paths@ =~= seq![first]);
    let mut at: usize = start;
    let mut more = true;
    while more
        invariant
            from < at <= v.len(),
            line_at(v@, from as int) == match more_names(v@, start as int, seq![first]) {
                None => None,
                Some((names, to)) => Some(Some(((name, names, flow_rate as u16), to))),
            },
            more ==> more_names(v@, start as int, seq![first]) == more_names(v@, at as int, paths@),
            !more ==> more_names(v@, start as int, seq![first]) == Some((paths@, at as int)),
        decreases
                v.len() - at + if more {
                    1int
                } else {
                    0int
                },
    {
        match tag(v, at, ", ") {
            Some(g) => match parse_valve_name(v, g) {
                Some((name, to)) => {
                    paths.push(name);
                    at = to;
                },
                None => {
                    return None;
                },
            },
            None => {
                more = false;
            },
        }
    }
    Some(Some(((name, paths, flow_rate as u16), at)))
}

/// Reads the valves, if the first line writes one and the input does not end within a name.
pub fn try_parse_input(input: &str) -> (r: Option<InputData>)
    ensures
        r is Some == valves_of(input@) is Some,
        r is Some ==> r->0@ == plan_of(valves_of(input@)->0),
{
    let v = chars(input);
    let (valve, start) = match parse_line(&v, 0) {
        Some(Some(p)) => p,
        _ => {
            return None;
        },
    };
    let ghost head = (valve.0, valve.1@, valve.2);
    let mut flow_rate: Vec<(ValveName, u16)> = Vec::new();
    flow_rate.push((valve.0, valve.2));
    let mut paths: Vec<(ValveName, Vec<ValveName>, u16)> = Vec::new();
    paths.push(valve);
    let mut data = InputData { paths, flow_rate };
    assert(data@.paths =~= seq![head]);
    assert(data@ =~= plan_of(seq![head])) by {
        assert(data@.flow_rate =~= plan_of(seq![head]).flow_rate);
    }
    let mut at: usize = start;
    let mut more = true;
    while more
        invariant
            v@ == input@,
            0 < at <= v.len(),
            valves_of(input@) == more_lines(v@, start as int, seq![head]),
            data@ == plan_of(data@.paths),
            more ==> more_lines(v@, start as int, seq![head]) == more_lines(
                v@,
                at as int,
                data@.paths,
            ),
            !more ==> more_lines(v@, start as int, seq![head]) == Some(data@.paths),
        decreases
                v.len() - at + if more {
                    1int
                } else {
                    0int
                },
    {
        if at < v.len() && v[at] == '\n' {
            match parse_line(&v, at + 1) {
                None => {
                    return None;
                },
                Some(None) => {
                    more = false;
                },
                Some(Some((valve, to))) => {
                    let ghost before = data@;
                    let ghost added = (valve.0, valve.1@, valve.2);
                    data.flow_rate.push((valve.0, valve.2));
                    data.paths.push(valve);
                    assert(data@.paths =~= before.paths.push(added));
                    assert(data@.flow_rate =~= plan_of(data@.paths).flow_rate);
                    at = to;
                },
            }
        } else {
            more = false;
        }
    }
    Some(data)
}

/// Reads the valves.
pub fn parse_input(input: &str) -> (r: InputData)
    requires
        valves_of(input@) is Some,
    ensures
        r@ == plan_of(valves_of(input@)->0),
{
    try_parse_input(input).unwrap()
}

/// Tells whether every name of the list is made of letters and names a valve with tunnels.
fn all_known(input_data: &InputData, list: &Vec<ValveName>) -> (r: bool)
    ensures
        r == forall|j: int|
            0 <= j < list.len() ==> is_name(#[trigger] list@[j]) && input_data@.valve(list@[j]) is Some,
{
    let mut j: usize = 0;
    while j < list.len()
        invariant
            0 <= j <= list.len(),
            forall|k: int|
                0 <= k < j ==> is_name(#[trigger] list@[k]) && input_data@.valve(list@[k]) is Some,
        decreases list.len() - j,
    {
        let name = list[j];
        if !('A' <= name.0 && name.0 <= 'Z' && 'A' <= name.1 && name.1 <= 'Z') {
            return false;
        }
        if input_data.find(name).is_none() {
            return false;
        }
        j += 1;
    }
    true
}

/// Tells whether the input data are sound.
pub fn is_sound(input_data: &InputData) -> (r: bool)
    ensures
        r == input_data@.sound(),
{
    let mut i: usize = 0;
    while i < input_data.flow_rate.len()
        invariant
            0 <= i <= input_data.flow_rate.len(),
            forall|k: int| 0 <= k < i ==> is_name((#[trigger] input_data@.flow_rate[k]).0),
        decreases input_data.flow_rate.len() - i,
    {
        let name = input_data.flow_rate[i].0;
        if !('A' <= name.0 && name.0 <= 'Z' && 'A' <= name.1 && name.1 <= 'Z') {
            assert(!is_name(input_data@.flow_rate[i as int].0));
            return false;
        }
        i += 1;
    }
    let mut i: usize = 0;
    while i < input_data.paths.len()
        invariant
            0 <= i <= input_data.paths.len(),
            forall|k: int| 0 <= k < input_data@.flow_rate.len() ==> is_name((#[trigger] input_data@.flow_rate[k]).0),
            forall|k: int| 0 <= k < i ==> is_name((#[trigger] input_data@.paths[k]).0),
            forall|k: int, j: int|
                0 <= k < i && 0 <= j < input_data@.paths[k].1.len() ==> is_name(
                    #[trigger] input_data@.paths[k].1[j],
                ) && input_data@.valve(input_data@.paths[k].1[j]) is Some,
        decreases input_data.paths.len() - i,
    {
        let name = input_data.paths[i].0;
        assert(input_data@.paths[i as int] == (
            input_data.paths@[i as int].0,
            input_data.paths@[i as int].1@,
            input_data.paths@[i as int].2,
        ));
        if !('A' <= name.0 && name.0 <= 'Z' && 'A' <= name.1 && name.1 <= 'Z') {
            assert(!is_name(input_data@.paths[i as int].0));
            return false;
        }
        if !all_known(input_data, &input_data.paths[i].1) {
            let ghost j = choose|j: int|
                0 <= j < input_data@.paths[i as int].1.len() && !(is_name(
                    #[trigger] input_data@.paths[i as int].1[j],
                ) && input_data@.valve(input_data@.paths[i as int].1[j]) is Some);
            assert(!(is_name(input_data@.paths[i as int].1[j]) && input_data@.valve(
                input_data@.paths[i as int].1[j],
            ) is Some));
            return false;
        }
        i += 1;
    }
    input_data.find(('A', 'A')).is_some()
}

/// The most pressure that can be released; `None` when the input writes no sound data or the
/// states of the search cannot be worked out.
pub open spec fn answer(input: Seq<char>, max_minute: u8, use_elephants: bool) -> Option<int> {
    match valves_of(input) {
        Some(valves) => if plan_of(valves).sound() {
            match plan_of(valves).most(max_minute, use_elephants) {
                Some(n) => Some(n as int),
                None => None,
            }
        } else {
            None
        },
        None => None,
    }
}

fn release(input: &str, max_minute: u8, use_elephants: bool) -> (r: Option<String>)
    ensures
        r is Some == answer(input@, max_minute, use_elephants) is Some,
        r is Some ==> r->0@ == decimal(answer(input@, max_minute, use_elephants)->0),
{
    let input_data = match try_parse_input(input) {
        Some(data) => data,
        None => {
            return None;
        },
    };
    if !is_sound(&input_data) {
        return None;
    }
    match try_solve(&input_data, max_minute, use_elephants) {
        Some(n) => Some(format_u64(n as u64)),
        None => None,
    }
}

/// The most pressure that one can release alone in 30 minutes, if it can be worked out.
pub fn try_puzzle_1(input: &str) -> (r: Option<String>)
    ensures
        r is Some == answer(input@, 30, false) is Some,
        r is Some ==> r->0@ == decimal(answer(input@, 30, false)->0),
{
    release(input, 30, false)
}

/// The most pressure that one can release alone in 30 minutes.
pub fn puzzle_1(input: &str) -> (r: String)
    requires
        answer(input@, 30, false) is Some,
    ensures
        r@ == decimal(answer(input@, 30, false)->0),
{
    release(input, 30, false).unwrap()
}

/// The most pressure that two can release in 26 minutes, if it can be worked out.
pub fn try_puzzle_2(input: &str) -> (r: Option<String>)
    ensures
        r is Some == answer(input@, 26, true) is Some,
        r is Some ==> r->0@ == decimal(answer(input@, 26, true)->0),
{
    release(input, 26, true)
}

/// The most pressure that two can release in 26 minutes.
pub fn puzzle_2(input: &str) -> (r: String)
    requires
        answer(input@, 26, true) is Some,
    ensures
        r@ == decimal(answer(input@, 26, true)->0),
{
    release(input, 26, true).unwrap()
}

} // verus!
