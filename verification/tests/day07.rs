use aoc2022::day07::session::{has_start, read_command, Command};
use aoc2022::day07::{FsNode, FsTree};
use aoc2022::day16::{usable_valve_indexes, Valve};

const EXAMPLE: &str = "$ cd /
$ ls
dir a
14848514 b.txt
8504156 c.dat
dir d
$ cd a
$ ls
dir e
29116 f
2557 g
62596 h.lst
$ cd e
$ ls
584 i
$ cd ..
$ cd ..
$ cd d
$ ls
4060174 j
8033020 d.log
5626152 d.ext
7214296 k";

fn build(input: &str) -> FsTree {
    let mut tree = FsTree::new();
    let mut cwd = 0;
    for line in input.lines() {
        if line == "$ cd /" {
            cwd = 0;
        } else if line == "$ cd .." {
            cwd = tree.parent(cwd);
        } else if line.starts_with("$ cd ") {
            let name = &line[5..];
            cwd = tree.dir(cwd, name);
        } else if !line.starts_with("$") && !line.starts_with("dir") {
            let (size, name) = line.split_once(" ").unwrap();
            let size: u64 = size.parse().unwrap();
            tree.file(cwd, name, size);
        }
    }
    tree
}

#[test]
fn sizes_of_the_example() {
    let mut tree = build(EXAMPLE);
    assert_eq!(tree.nodes.len(), 14);
    assert_eq!(tree.calc_dir_size(0), 48381165);
    assert_eq!(tree.dir_size_cache.len(), 4);
    assert_eq!(tree.sum_of_dirs_not_more_than(100000), 95437);
    assert_eq!(tree.sum_of_dirs_not_more_than(583), 0);
    assert_eq!(tree.sum_of_dirs_not_more_than(584), 584);
    assert_eq!(tree.sum_of_dirs_not_more_than(u64::MAX), 584 + 94853 + 24933642 + 48381165);
    assert_eq!(tree.smallest_directory_freeing_up_to(30000000), 24933642);
    assert_eq!(tree.smallest_directory_freeing_up_to(21618835 + 94853), 94853);
    assert_eq!(tree.smallest_directory_freeing_up_to(21618835 + 94854), 24933642);
    assert_eq!(tree.smallest_directory_freeing_up_to(21618835), 584);
    assert_eq!(tree.smallest_directory_freeing_up_to(70000000), 48381165);
    assert_eq!(tree.calc_dir_size(0), 48381165);
}

#[test]
fn sizes_of_parts_of_the_tree() {
    let mut tree = build(EXAMPLE);
    let a = tree.dir(0, "a");
    let e = tree.dir(a, "e");
    let d = tree.dir(0, "d");
    assert_eq!((a, e, d), (3, 7, 9));
    assert_eq!(tree.nodes.len(), 14);
    assert_eq!(tree.parent(e), a);
    assert_eq!(tree.parent(a), 0);
    assert_eq!(tree.child_count(0), 4);
    assert_eq!(tree.child_index(0, 3), d);
    assert_eq!(tree.file_size(1), Some(14848514));
    assert_eq!(tree.file_size(2), Some(8504156));
    assert_eq!(tree.file_size(a), None);
    assert_eq!(tree.find_child(a, &"h.lst".to_string()), Some(6));
    assert_eq!(tree.find_child(a, &"i".to_string()), None);
    assert_eq!(tree.calc_dir_size(a), 94853);
    assert_eq!(tree.dir_size_cache.len(), 2);
    assert_eq!(tree.dir_size_cache[&e], 584);
    assert_eq!(tree.calc_dir_size(d), 24933642);
    assert_eq!(tree.dir_size_cache.len(), 3);
}

#[test]
fn children_are_added_once() {
    let mut tree = FsTree::new();
    assert_eq!(tree.nodes.len(), 1);
    assert_eq!(tree.file(0, "x", 5), 1);
    assert_eq!(tree.file(0, "x", 7), 1);
    assert_eq!(tree.dir(0, "x"), 1);
    assert_eq!(tree.dir(0, "y"), 2);
    assert_eq!(tree.dir(2, "y"), 3);
    assert_eq!(tree.file(3, "x", 11), 4);
    assert_eq!(tree.add_child(0, "z", || FsNode::File(1)), 5);
    assert_eq!(tree.add_child(0, "y", || FsNode::File(1)), 2);
    assert_eq!(tree.nodes.len(), 6);
    assert!(matches!(tree.nodes[1], FsNode::File(5)));
    assert!(matches!(tree.nodes[3], FsNode::Dir(Some(2), _)));
    assert_eq!(tree.calc_dir_size(0), 17);
    assert_eq!(tree.calc_dir_size(2), 11);
    assert_eq!(tree.sum_of_dirs_not_more_than(11), 22);
    let mut empty = FsTree::new();
    assert_eq!(empty.calc_dir_size(0), 0);
    assert_eq!(empty.sum_of_dirs_not_more_than(0), 0);
}

#[test]
fn valves_worth_opening() {
    let valve = |rate: usize| Valve { rate, neighbours: vec!["AA".to_string()] };
    assert_eq!(usable_valve_indexes(&vec![valve(0), valve(13), valve(0), valve(2), valve(1)]), vec![1, 3, 4]);
    assert_eq!(usable_valve_indexes(&vec![valve(0), valve(0)]), Vec::<usize>::new());
    assert_eq!(usable_valve_indexes(&Vec::new()), Vec::<usize>::new());
}

#[test]
fn session_lines_are_read() {
    assert_eq!(read_command(b"$ cd /"), Some(Command::Root));
    assert_eq!(read_command(b"$ cd .."), Some(Command::Up));
    assert_eq!(read_command(b"$ cd abc"), Some(Command::Into(5)));
    assert_eq!(read_command(b"$ cd "), Some(Command::Into(5)));
    assert_eq!(read_command(b"$ cd ..."), Some(Command::Into(5)));
    assert_eq!(read_command(b"$ cd //"), Some(Command::Into(5)));
    assert_eq!(read_command(b"$ cd ."), Some(Command::Into(5)));
    assert_eq!(read_command(b"$ ls"), Some(Command::Nothing));
    assert_eq!(read_command(b"$ cd"), Some(Command::Nothing));
    assert_eq!(read_command(b"$"), Some(Command::Nothing));
    assert_eq!(read_command(b"dir e"), Some(Command::Nothing));
    assert_eq!(read_command(b"directions"), Some(Command::Nothing));
    assert_eq!(read_command(b"14848514 b.txt"), Some(Command::File(14848514, 9)));
    assert_eq!(read_command(b"0 a b"), Some(Command::File(0, 2)));
    assert_eq!(read_command(b"7 "), Some(Command::File(7, 2)));
}

#[test]
fn session_lines_that_cannot_be_read() {
    assert_eq!(read_command(b""), None);
    assert_eq!(read_command(b"di"), None);
    assert_eq!(read_command(b"12"), None);
    assert_eq!(read_command(b"x 12"), None);
    assert_eq!(read_command(b" 12 a"), None);
    assert_eq!(read_command(b"-1 a"), None);
    assert_eq!(read_command(b"99999999999999999999999 a"), None);
}

#[test]
fn beginnings_of_lines() {
    assert!(has_start(b"$ cd x", b"$ cd "));
    assert!(has_start(b"$ cd x", b""));
    assert!(has_start(b"abc", b"abc"));
    assert!(!has_start(b"ab", b"abc"));
    assert!(!has_start(b"abd", b"abc"));
    assert!(!has_start(b"xbc", b"abc"));
}
