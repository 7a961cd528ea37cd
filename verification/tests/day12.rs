use aoc2022::day12::field::{fewest_steps, find_marks, read_field};
use aoc2022::day12::{calculate_shortest_paths, GridCell};

fn field(rows: &[&str]) -> Vec<Vec<GridCell>> {
    rows.iter()
        .enumerate()
        .map(|(y, row)| {
            row.bytes()
                .enumerate()
                .map(|(x, b)| {
                    let height = match b {
                        b'S' => 0,
                        b'E' => 25,
                        other => other - b'a',
                    };
                    GridCell { coord: (x, y), height, dist: -1 }
                })
                .collect()
        })
        .collect()
}

#[test]
fn the_hill_of_the_example() {
    let rows = ["Sabqponm", "abcryxxl", "accszExk", "acctuvwj", "abdefghi"];
    let mut grid = field(&rows);
    calculate_shortest_paths(&mut grid, &(5, 2));
    assert_eq!(grid[2][5].dist, 0);
    assert_eq!(grid[0][0].dist, 31);
    let lowest: Vec<i32> = grid
        .iter()
        .flatten()
        .filter(|cell| cell.height == 0 && cell.dist >= 0)
        .map(|cell| cell.dist)
        .collect();
    assert_eq!(lowest.iter().min(), Some(&29));
    assert_eq!(grid[2][4].dist, 1);
    assert_eq!(grid[1][4].dist, 2);
    assert_eq!(grid, {
        let mut again = field(&rows);
        calculate_shortest_paths(&mut again, &(5, 2));
        again
    });
    for (y, row) in grid.iter().enumerate() {
        for (x, cell) in row.iter().enumerate() {
            assert_eq!(cell.coord, (x, y));
            assert_eq!(cell.height, field(&rows)[y][x].height);
        }
    }
}

#[test]
fn short_ways() {
    let mut flat = field(&["aaa", "aaa"]);
    calculate_shortest_paths(&mut flat, &(0, 0));
    let dists: Vec<Vec<i32>> = flat.iter().map(|r| r.iter().map(|c| c.dist).collect()).collect();
    assert_eq!(dists, vec![vec![0, 1, 2], vec![1, 2, 3]]);
    let mut cliff = field(&["acac"]);
    calculate_shortest_paths(&mut cliff, &(1, 0));
    let dists: Vec<i32> = cliff[0].iter().map(|c| c.dist).collect();
    assert_eq!(dists, vec![-1, 0, -1, -1]);
    let mut climb = field(&["acac"]);
    calculate_shortest_paths(&mut climb, &(0, 0));
    let dists: Vec<i32> = climb[0].iter().map(|c| c.dist).collect();
    assert_eq!(dists, vec![0, 1, -1, -1]);
    let mut stairs = field(&["abcd", "dcba"]);
    calculate_shortest_paths(&mut stairs, &(3, 0));
    let dists: Vec<Vec<i32>> = stairs.iter().map(|r| r.iter().map(|c| c.dist).collect()).collect();
    assert_eq!(dists, vec![vec![3, 2, 1, 0], vec![4, 3, 2, 3]]);
    let mut one = field(&["q"]);
    calculate_shortest_paths(&mut one, &(0, 0));
    assert_eq!(one[0][0].dist, 0);
}

fn map_rows() -> Vec<Vec<u8>> {
    ["Sabqponm", "abcryxxl", "accszExk", "acctuvwj", "abdefghi"]
        .iter()
        .map(|row| row.as_bytes().to_vec())
        .collect()
}

#[test]
fn field_is_read_from_a_map() {
    let field = read_field(&map_rows()).unwrap();
    assert_eq!(field.start, (0, 0));
    assert_eq!(field.end, (5, 2));
    assert_eq!(field.low, vec![(1, 0), (0, 1), (0, 2), (0, 3), (0, 4)]);
    assert_eq!(field.grid.len(), 5);
    assert!(field.grid.iter().all(|row| row.len() == 8));
    assert_eq!(field.grid[0][0], GridCell { coord: (0, 0), height: 0, dist: -1 });
    assert_eq!(field.grid[2][5], GridCell { coord: (5, 2), height: 25, dist: -1 });
    assert_eq!(field.grid[2][4], GridCell { coord: (4, 2), height: 25, dist: -1 });
    assert_eq!(field.grid[4][7], GridCell { coord: (7, 4), height: 8, dist: -1 });
}

#[test]
fn map_with_other_marks() {
    assert!(read_field(&vec![b"ab".to_vec(), b"a`".to_vec()]).is_none());
    assert!(read_field(&vec![b"aB".to_vec()]).is_none());
    assert!(read_field(&vec![b"a b".to_vec()]).is_none());
    let field = read_field(&vec![b"SE".to_vec(), b"ES{".to_vec(), vec![]]).unwrap();
    assert_eq!((field.start, field.end), ((1, 1), (0, 1)));
    assert_eq!(field.grid[1][2].height, 26);
    assert_eq!(field.grid[2], vec![]);
    let field = read_field(&vec![b"bc".to_vec()]).unwrap();
    assert_eq!((field.start, field.end, field.low), ((0, 0), (0, 0), vec![]));
    assert_eq!(find_marks(&map_rows(), b'c'), vec![(2, 1), (1, 2), (2, 2), (1, 3), (2, 3)]);
}

#[test]
fn fewest_steps_of_the_example() {
    let mut field = read_field(&map_rows()).unwrap();
    calculate_shortest_paths(&mut field.grid, &field.end);
    assert_eq!(field.grid[field.start.1][field.start.0].dist, 31);
    assert_eq!(fewest_steps(&field.grid, &field.low), Some(29));
    assert_eq!(fewest_steps(&field.grid, &vec![field.end]), None);
    assert_eq!(fewest_steps(&field.grid, &vec![]), None);
    assert_eq!(fewest_steps(&field.grid, &vec![field.start, (0, 4), field.end]), Some(29));
    assert_eq!(fewest_steps(&field.grid, &vec![(4, 2)]), Some(1));
}
