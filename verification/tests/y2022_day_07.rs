use advent_of_code::y2022::day_07::{
    get_all_dir_recur, get_small_dir_recur, make_path, parse_output, puzzle_1, puzzle_2,
    try_parse_output, try_puzzle_1, try_puzzle_2, DirCursor, DirElement, PathElement,
};

const INPUT: &str = "$ cd /
$ ls
dir a
14848514 b.txt
8504156 c.dat
dir d
$ cd a
$ ls
dir e
29116 f
2557 g
62596 h.lst
$ cd e
$ ls
584 i
$ cd ..
$ cd ..
$ cd d
$ ls
4060174 j
8033020 d.log
5626152 d.ext
7214296 k
";

#[test]
fn test_create_empty_dir() {
    let output = "$ cd /";
    let dir = parse_output(output);
    assert_eq!(dir.tree.dirs[dir.root].children.len(), 0);
}

#[test]
fn test_create_dirs() {
    let output = "$ cd /\n$ ls\ndir a\n12345 b\n";
    let dir = parse_output(output);
    let children = &dir.tree.dirs[dir.root].children;
    assert_eq!(children.len(), 2);
    assert_eq!(dir.tree.get_size(children[0]), 0);
    assert_eq!(dir.tree.get_size(children[1]), 12345);
}

#[test]
fn day_07_test_puzzle_1() {
    assert_eq!(puzzle_1(INPUT), "95437");
}

#[test]
fn day_07_test_puzzle_2() {
    assert_eq!(puzzle_2(INPUT), "24933642");
}

#[test]
fn the_sample_device() {
    let dir = parse_output(INPUT);
    let tree = &dir.tree;
    assert_eq!(tree.dirs.len(), 4);
    assert_eq!(tree.files.len(), 10);
    assert_eq!(tree.get_total_size(0), 48381165);
    assert_eq!(dir.cursor, DirElement::Dir(2));
    assert_eq!(tree.get_name(DirElement::Dir(2)), "d");
    assert_eq!(tree.get_name(DirElement::Dir(0)), "");
    assert_eq!(tree.get_parent(DirElement::Dir(3)), Some(1));
    assert_eq!(tree.get_parent(DirElement::Dir(0)), None);
    assert_eq!(tree.get_parent(DirElement::File(9)), Some(2));
    assert_eq!(tree.get_child(DirElement::Dir(0), "d"), Some(DirElement::Dir(2)));
    assert_eq!(tree.get_child(DirElement::Dir(2), "d.log"), Some(DirElement::File(7)));
    assert_eq!(tree.get_child(DirElement::Dir(2), "e"), None);
    assert_eq!(tree.get_child(DirElement::File(0), "e"), None);
    assert_eq!(tree.get_size(DirElement::Dir(1)), 94853);
    assert_eq!(tree.get_size(DirElement::File(6)), 4060174);
    let mut all = vec![];
    get_all_dir_recur(tree, 0, &mut all);
    assert_eq!(all, vec![0, 1, 3, 2]);
    let mut small = vec![7];
    get_small_dir_recur(tree, 0, &mut small, 100_000);
    assert_eq!(small, vec![7, 1, 3]);
}

#[test]
fn paths_have_a_step_in_each_line() {
    assert!(matches!(PathElement::try_from("."), Ok(PathElement::Current)));
    assert!(matches!(PathElement::try_from(".."), Ok(PathElement::Parent)));
    assert!(matches!(PathElement::try_from(""), Err(())));
    match PathElement::try_from("...") {
        Ok(PathElement::Child(name)) => assert_eq!(name, "..."),
        _ => panic!(),
    }
    let path = make_path("a/b\n..\n.").unwrap();
    assert_eq!(path.len(), 3);
    match &path[0] {
        PathElement::Child(name) => assert_eq!(name, "a/b"),
        _ => panic!(),
    }
    assert!(matches!(path[1], PathElement::Parent));
    assert!(make_path("a\n").is_err());
    assert!(make_path("").is_err());
}

#[test]
fn the_cursor_moves_and_lists() {
    let mut dir = DirCursor::create_empty();
    assert_eq!(dir.handle_line("dir a"), Err(()));
    assert_eq!(dir.handle_line("$ ls"), Ok(()));
    assert!(dir.is_ls);
    assert_eq!(dir.handle_line("dir a"), Ok(()));
    assert_eq!(dir.handle_line("12 a"), Ok(()));
    assert_eq!(dir.handle_line("x y z"), Ok(()));
    assert_eq!(dir.handle_line("nothing"), Err(()));
    assert_eq!(dir.tree.get_name(DirElement::Dir(2)), "y z");
    assert_eq!(dir.handle_line("$ cd a"), Ok(()));
    assert!(!dir.is_ls);
    assert_eq!(dir.cursor, DirElement::Dir(1));
    assert_eq!(dir.handle_line("$ cd b"), Err(()));
    assert_eq!(dir.handle_line("$ cd .."), Ok(()));
    assert_eq!(dir.cursor, DirElement::Dir(0));
    assert_eq!(dir.handle_line("$ cd .."), Err(()));
    assert_eq!(dir.handle_line("$ cd a\n..\ny z\n.\nmissing"), Err(()));
    assert_eq!(dir.cursor, DirElement::Dir(2));
    assert_eq!(dir.cd("/"), Ok(()));
    assert_eq!(dir.cursor, DirElement::Dir(0));
    assert_eq!(dir.handle_command_line("  cd a"), Err(()));
    assert_eq!(dir.handle_command_line("dir"), Err(()));
    assert_eq!(dir.handle_command_line(""), Err(()));
    assert_eq!(dir.handle_command_line("cd "), Err(()));
    assert_eq!(dir.handle_line("$xcd a"), Ok(()));
    assert_eq!(dir.handle_ls_line("5 c"), Ok(()));
    assert_eq!(dir.handle_ls_line("5"), Err(()));
    assert!(dir.can_handle("$ cd a"));
    assert!(!dir.can_handle("$"));
    assert!(!dir.can_handle("$ cd"));
    assert!(dir.can_handle("$ ls"));
    assert!(!dir.can_handle("$\u{e9} ls"));
    assert!(dir.can_handle("\u{e9} ls"));
}

#[test]
fn output_that_shows_no_device() {
    assert!(try_parse_output("dir a").is_none());
    assert!(try_parse_output("$ cd a").is_none());
    assert!(try_parse_output("$ ls\ndir a\n$ cd").is_none());
    assert!(try_parse_output("$ ls\n4 a\n$ cd a\n$ ls\n4 b").is_none());
    assert!(try_parse_output("  \n \t$ ls \n\n").is_some());
    assert_eq!(try_puzzle_1("$ ls\n4294967295 a\n1 b"), None);
    assert_eq!(try_puzzle_1("$ ls\n4294967295 a"), Some("0".to_string()));
    assert_eq!(try_puzzle_1("$ ls\ndir a\n$ cd a\n$ ls\n7 b"), Some("14".to_string()));
    assert_eq!(try_puzzle_2("$ ls\ndir a\n$ cd a\n$ ls\n7 b"), Some("".to_string()));
    assert_eq!(try_puzzle_2("$ ls\n70000001 a"), None);
    assert_eq!(try_puzzle_2("$ ls\n70000000 a"), Some("70000000".to_string()));
    assert_eq!(try_puzzle_2(INPUT), Some("24933642".to_string()));
    assert_eq!(try_puzzle_1(INPUT), Some("95437".to_string()));
    assert_eq!(try_puzzle_2(""), Some("".to_string()));
}
