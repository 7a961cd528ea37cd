use aoc2022::day07::eager::{put_kid, smallest_dir_above_threshold, sum_small_dirs, Disk, FsNode};

const EXAMPLE: &str = "$ cd /
$ ls
dir a
14848514 b.txt
8504156 c.dat
dir d
$ cd a
$ ls
dir e
29116 f
2557 g
62596 h.lst
$ cd e
$ ls
584 i
$ cd ..
$ cd ..
$ cd d
$ ls
4060174 j
8033020 d.log
5626152 d.ext
7214296 k";

fn build(input: &str) -> Disk {
    let mut disk = Disk::new();
    let mut cwd = 0;
    for line in input.lines() {
        if line == "$ cd /" {
            cwd = 0;
        } else if line == "$ cd .." {
            cwd = disk.nodes[cwd].parent();
        } else if line.starts_with("$ cd ") {
            cwd = disk.add_subdir(cwd, &line[5..]);
        } else if !line.starts_with("$") && !line.starts_with("dir") {
            let (size, name) = line.split_once(" ").unwrap();
            disk.add_file(cwd, name, size.parse().unwrap());
        }
    }
    disk
}

#[test]
fn sizes_kept_up_to_date() {
    let disk = build(EXAMPLE);
    assert_eq!(disk.nodes.len(), 14);
    assert_eq!(disk.nodes[0].size(), 48381165);
    assert_eq!(disk.nodes[3].size(), 94853);
    assert_eq!(disk.nodes[7].size(), 584);
    assert_eq!(disk.nodes[9].size(), 24933642);
    assert_eq!(disk.nodes[1].size(), 14848514);
    assert_eq!(sum_small_dirs(&disk, 0), 95437);
    assert_eq!(sum_small_dirs(&disk, 3), 95437);
    assert_eq!(sum_small_dirs(&disk, 7), 584);
    assert_eq!(sum_small_dirs(&disk, 9), 0);
    assert_eq!(sum_small_dirs(&disk, 1), 0);
    let root_size = disk.nodes[0].size();
    let required_space = 30_000_000 - (70_000_000 - root_size);
    assert_eq!(smallest_dir_above_threshold(&disk, 0, required_space, root_size), Some(24933642));
    assert_eq!(smallest_dir_above_threshold(&disk, 0, 585, root_size), Some(94853));
    assert_eq!(smallest_dir_above_threshold(&disk, 0, 0, root_size), Some(584));
    assert_eq!(smallest_dir_above_threshold(&disk, 0, 0, 100), Some(100));
    assert_eq!(smallest_dir_above_threshold(&disk, 0, root_size + 1, 7), Some(7));
    assert_eq!(smallest_dir_above_threshold(&disk, 3, 0, root_size), Some(584));
    assert_eq!(smallest_dir_above_threshold(&disk, 1, 0, root_size), None);
}

#[test]
fn a_file_grows_every_directory_above_it() {
    let mut disk = Disk::new();
    let a = disk.add_subdir(0, "a");
    let b = disk.add_subdir(a, "b");
    let c = disk.add_subdir(0, "c");
    assert_eq!((a, b, c), (1, 2, 3));
    assert_eq!(disk.add_file(b, "x", 10), 4);
    let sizes = |disk: &Disk| disk.nodes.iter().map(|n| n.size()).collect::<Vec<u64>>();
    assert_eq!(sizes(&disk), vec![10, 10, 10, 0, 10]);
    disk.add_file(c, "y", 5);
    assert_eq!(sizes(&disk), vec![15, 10, 10, 5, 10, 5]);
    disk.add_file(0, "z", 1);
    assert_eq!(sizes(&disk), vec![16, 10, 10, 5, 10, 5, 1]);
    disk.add_file(a, "x", 100);
    assert_eq!(sizes(&disk), vec![116, 110, 10, 5, 10, 5, 1, 100]);
    assert_eq!(disk.nodes[b].parent(), a);
    assert_eq!(disk.nodes[a].parent(), 0);
    assert!(matches!(&disk.nodes[a], FsNode::Dir(Some(0), kids, 110) if kids.len() == 2));
    let again = disk.add_subdir(0, "a");
    assert_eq!(again, 8);
    assert!(matches!(&disk.nodes[0], FsNode::Dir(None, kids, 116)
        if kids.iter().map(|k| k.1).collect::<Vec<_>>() == vec![8, 3, 6]));
    assert_eq!(sum_small_dirs(&disk, 0), 116 + 5);
}

#[test]
fn nodes_and_children() {
    let dir = FsNode::new_dir(Some(4));
    assert!(matches!(&dir, FsNode::Dir(Some(4), kids, 0) if kids.is_empty()));
    assert_eq!(dir.size(), 0);
    assert_eq!(dir.parent(), 4);
    assert_eq!(FsNode::File(9).size(), 9);
    let mut node = FsNode::new_dir(None);
    assert_eq!(node.add_subdir("a", 3), 3);
    assert_eq!(node.add_file("f", 7, 5), 5);
    assert_eq!(node.add_file("a", 2, 6), 6);
    node.grow(1);
    assert!(matches!(&node, FsNode::Dir(None, kids, 10)
        if *kids == vec![("a".to_string(), 6), ("f".to_string(), 5)]));
    let mut kids = vec![("a".to_string(), 1)];
    put_kid(&mut kids, "b", 2);
    put_kid(&mut kids, "a", 3);
    assert_eq!(kids, vec![("a".to_string(), 3), ("b".to_string(), 2)]);
}
