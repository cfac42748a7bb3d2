use advent_of_code::y2022::day_16::{
    get_released_pressure, get_starting_node, is_sound, puzzle_1, puzzle_2, same_name, solve,
    try_parse_input, try_puzzle_1, try_puzzle_2, try_solve, Node, NodeContainer,
    ValvesConfiguration,
};
use std::hash::{DefaultHasher, Hash, Hasher};

const INPUT: &str = "Valve AA has flow rate=0; tunnels lead to valves DD, II, BB
Valve BB has flow rate=13; tunnels lead to valves CC, AA
Valve CC has flow rate=2; tunnels lead to valves DD, BB
Valve DD has flow rate=20; tunnels lead to valves CC, AA, EE
Valve EE has flow rate=3; tunnels lead to valves FF, DD
Valve FF has flow rate=0; tunnels lead to valves EE, GG
Valve GG has flow rate=0; tunnels lead to valves FF, HH
Valve HH has flow rate=22; tunnel leads to valve GG
Valve II has flow rate=0; tunnels lead to valves AA, JJ
Valve JJ has flow rate=21; tunnel leads to valve II
";

#[test]
fn day_16_test_parse_input() {
    let parsed = try_parse_input(INPUT).unwrap();
    let at = parsed.find(('A', 'A')).unwrap();
    let paths = &parsed.paths[at];
    assert_eq!(
        (&paths.1, paths.2),
        (&vec![('D', 'D'), ('I', 'I'), ('B', 'B')], 0)
    );
}

#[test]
fn day_16_test_puzzle_1() {
    assert_eq!(puzzle_1(INPUT), "1651");
}

#[test]
fn day_16_test_puzzle_2() {
    assert_eq!(puzzle_2(INPUT), "1707");
}

#[test]
fn two_release_more_than_one() {
    let data = try_parse_input(INPUT).unwrap();
    assert!(is_sound(&data));
    assert_eq!(solve(&data, 5, true), 105);
    assert_eq!(try_solve(&data, 10, true), Some(414));
    assert_eq!(try_solve(&data, 0, true), Some(0));
    assert_eq!(try_solve(&data, 4, false), Some(40));
    assert_eq!(solve(&data, 30, false), 1651);
}

#[test]
fn input_data_keep_the_order_of_the_lines() {
    let data = try_parse_input(INPUT).unwrap();
    assert_eq!(data.paths.len(), 10);
    assert_eq!(data.flow_rate.len(), 10);
    assert_eq!(data.flow_rate[3], (('D', 'D'), 20));
    assert_eq!(data.paths[7], (('H', 'H'), vec![('G', 'G')], 22));
    assert_eq!(data.find(('J', 'J')), Some(9));
    assert_eq!(data.find(('K', 'K')), None);
    let twice = try_parse_input(
        "Valve AA has flow rate=1; tunnel leads to valve AA\nValve AA has flow rate=2; tunnels lead to valves AA, AA\nValve",
    )
    .unwrap();
    assert_eq!(twice.find(('A', 'A')), Some(1));
    assert_eq!(twice.flow_rate, vec![(('A', 'A'), 1), (('A', 'A'), 2)]);
    assert!(same_name(('A', 'B'), ('A', 'B')));
    assert!(!same_name(('A', 'B'), ('B', 'A')));
}

#[test]
fn input_that_writes_no_sound_data() {
    assert!(try_parse_input("").is_none());
    assert!(try_parse_input("Valve AA has flow rate=1; tunnel leads to valve AA, ").is_none());
    assert!(try_parse_input("Valve AA has flow rate=1; tunnel leads to valve A").is_none());
    assert!(try_parse_input("Valve A").is_none());
    assert!(try_parse_input("Valve AA has flow rate=1; tunnel leads to valve AA\nValve B").is_none());
    assert!(try_parse_input("Valve AA has flow rate=65536; tunnel leads to valve AA").is_none());
    assert!(try_parse_input("Valve AA has flow rate=1; tunnels leads to valve AA").is_none());
    let data = try_parse_input("Valve AA has flow rate=1; tunnel leads to valve AA,BB").unwrap();
    assert_eq!(data.paths[0].1, vec![('A', 'A')]);
    assert!(is_sound(&data));
    let data = try_parse_input("Valve AA has flow rate=1; tunnel leads to valve BB").unwrap();
    assert!(!is_sound(&data));
    let data = try_parse_input("Valve BB has flow rate=1; tunnel leads to valve BB").unwrap();
    assert!(!is_sound(&data));
    let data = try_parse_input("Valve AA has flow rate=1; tunnel leads to valve aa\nValve aa has flow rate=1; tunnel leads to valve AA").unwrap();
    assert!(!is_sound(&data));
    assert_eq!(try_puzzle_1("Valve AA has flow rate=1; tunnel leads to valve BB"), None);
    assert_eq!(try_puzzle_2("nothing"), None);
    assert_eq!(
        try_puzzle_2("Valve AA has flow rate=3; tunnel leads to valve AA"),
        Some("0".to_string())
    );
    assert_eq!(
        try_puzzle_1("Valve AA has flow rate=0; tunnel leads to valve BB\nValve BB has flow rate=60000; tunnel leads to valve AA"),
        None
    );
}

#[test]
fn states_are_told_apart_by_the_default_hash_of_four_values() {
    let node = |human: (char, char), pressure: u16, minute: u8| Node {
        human_valve: human,
        elephant_valve: ('A', 'A'),
        released_pressure: pressure,
        minute,
        configuration: ValvesConfiguration::new(),
    };
    let mut nodes = NodeContainer::new();
    nodes.insert(node(('A', 'B'), 300, 7));
    nodes.insert(node(('A', 'B'), 300, 7));
    nodes.insert(node(('A', 'B'), 300, 8));
    nodes.insert(node(('B', 'A'), 300, 7));
    let mut open = node(('A', 'B'), 300, 7);
    open.configuration.open(&('Q', 'Z'));
    assert!(open.configuration.is_open(('Q', 'Z')));
    assert!(!open.configuration.is_open(('Z', 'Q')));
    nodes.insert(open);
    assert_eq!(nodes.nodes.len(), 3);
    let mut hasher = DefaultHasher::new();
    ('A', 'B').hash(&mut hasher);
    ('A', 'A').hash(&mut hasher);
    300u16.hash(&mut hasher);
    7u8.hash(&mut hasher);
    assert!(nodes.visited_nodes.contains(&hasher.finish()));
    assert_eq!(nodes.visited_nodes.len(), 3);
    assert_eq!(nodes.pop().unwrap().human_valve, ('B', 'A'));
    assert_eq!(nodes.pop().unwrap().minute, 8);
    assert_eq!(nodes.pop().unwrap().minute, 7);
    assert!(nodes.pop().is_none());
    assert_eq!(nodes.visited_nodes.len(), 3);
}

#[test]
fn pressure_flows_from_open_valves() {
    let data = try_parse_input(INPUT).unwrap();
    let mut node = get_starting_node();
    assert_eq!(get_released_pressure(&node, &data), 0);
    node.configuration.open(&('B', 'B'));
    node.configuration.open(&('J', 'J'));
    node.configuration.open(&('A', 'A'));
    assert_eq!(get_released_pressure(&node, &data), 34);
    let copy = node.configuration.copy();
    assert!(copy.is_open(('J', 'J')));
    assert!(!copy.is_open(('D', 'D')));
}
