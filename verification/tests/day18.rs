use aoc2022::day18::surface::{
    count_faces, distinct, exterior_surface_area, flood, has_cube, surface_area,
};
use aoc2022::day18::{read_cube, Coord, Cuboid};

fn droplet() -> Vec<Coord> {
    [
        (2, 2, 2),
        (1, 2, 2),
        (3, 2, 2),
        (2, 1, 2),
        (2, 3, 2),
        (2, 2, 1),
        (2, 2, 3),
        (2, 2, 4),
        (2, 2, 6),
        (1, 2, 5),
        (3, 2, 5),
        (2, 1, 5),
        (2, 3, 5),
    ]
    .iter()
    .map(|&(x, y, z)| Coord(x, y, z))
    .collect()
}

#[test]
fn cube_is_found_among_the_cubes() {
    assert!(has_cube(&droplet(), &Coord(2, 2, 6)));
    assert!(has_cube(&droplet(), &Coord(2, 2, 2)));
    assert!(!has_cube(&droplet(), &Coord(2, 2, 5)));
    assert!(!has_cube(&droplet(), &Coord(2, 6, 2)));
    assert!(!has_cube(&vec![], &Coord(0, 0, 0)));
}

#[test]
fn faces_of_one_point() {
    assert_eq!(count_faces(&droplet(), &Coord(2, 2, 2), true), 6);
    assert_eq!(count_faces(&droplet(), &Coord(2, 2, 2), false), 0);
    assert_eq!(count_faces(&droplet(), &Coord(2, 2, 5), true), 6);
    assert_eq!(count_faces(&droplet(), &Coord(2, 2, 6), false), 6);
    assert_eq!(count_faces(&droplet(), &Coord(2, 2, 4), true), 1);
    assert_eq!(count_faces(&droplet(), &Coord(2, 2, 4), false), 5);
    assert_eq!(count_faces(&droplet(), &Coord(9, 9, 9), true), 0);
}

#[test]
fn surface_of_two_cubes_side_by_side() {
    let cubes = vec![Coord(1, 1, 1), Coord(2, 1, 1)];
    assert_eq!(surface_area(&cubes), 10);
    assert_eq!(exterior_surface_area(&cubes), 10);
}

#[test]
fn surface_of_the_droplet() {
    assert_eq!(surface_area(&droplet()), 64);
    assert_eq!(surface_area(&vec![Coord(-3, 0, 7)]), 6);
    assert_eq!(surface_area(&vec![]), 0);
}

#[test]
fn exterior_surface_of_the_droplet() {
    assert_eq!(exterior_surface_area(&droplet()), 58);
    assert_eq!(exterior_surface_area(&vec![Coord(-3, 0, 7)]), 6);
}

#[test]
fn air_floods_the_box_around_one_cube() {
    let cubes = vec![Coord(0, 0, 0)];
    let b = Cuboid((-1, 1), (-1, 1), (-1, 1));
    let cells = flood(&cubes, &b);
    assert_eq!(cells.len(), 26);
    assert_eq!(cells[0], Coord(-1, -1, -1));
    assert!(!cells.contains(&Coord(0, 0, 0)));
    for (i, cell) in cells.iter().enumerate() {
        assert!(b.contains(cell));
        assert!(!cells[..i].contains(cell));
    }
}

#[test]
fn air_does_not_pass_a_wall() {
    let wall: Vec<Coord> =
        (0..3).flat_map(|y| (0..3).map(move |z| Coord(1, y, z))).collect();
    let b = Cuboid((0, 2), (0, 2), (0, 2));
    let cells = flood(&wall, &b);
    assert_eq!(cells.len(), 9);
    assert!(cells.iter().all(|cell| cell.0 == 0));
}

#[test]
fn cubes_listed_twice_are_kept_once() {
    let list = vec![Coord(1, 1, 1), Coord(2, 1, 1), Coord(1, 1, 1), Coord(2, 1, 1), Coord(3, 1, 1)];
    assert_eq!(distinct(&list), vec![Coord(1, 1, 1), Coord(2, 1, 1), Coord(3, 1, 1)]);
    assert_eq!(distinct(&vec![]), vec![]);
    assert_eq!(surface_area(&distinct(&list)), 14);
}

#[test]
fn cube_is_read_from_a_line() {
    assert_eq!(read_cube(b"2,2,2"), Some(Coord(2, 2, 2)));
    assert_eq!(read_cube(b"-1,20,+3"), Some(Coord(-1, 20, 3)));
    assert_eq!(read_cube(b"2,2"), None);
    assert_eq!(read_cube(b"2,2,"), None);
    assert_eq!(read_cube(b",2,2"), None);
    assert_eq!(read_cube(b"2,2,2,2"), None);
    assert_eq!(read_cube(b"2, 2,2"), None);
    assert_eq!(read_cube(b""), None);
    assert_eq!(read_cube(b"2,2,99999999999999999999"), None);
}
