use aoc2022::day20::{find_slot, find_zero, grove_coordinates, mix, move_number, tag, wrapped};

const NUMBERS: [isize; 7] = [1, 2, -3, 3, -2, 0, 4];

#[test]
fn place_is_counted_around_the_ring() {
    assert_eq!(wrapped(2, 3, 6), 5);
    assert_eq!(wrapped(2, 4, 6), 0);
    assert_eq!(wrapped(2, -2, 6), 0);
    assert_eq!(wrapped(2, -3, 6), 5);
    assert_eq!(wrapped(2, -14, 6), 0);
    assert_eq!(wrapped(2, -15, 6), 5);
    assert_eq!(wrapped(0, 0, 1), 0);
    assert_eq!(wrapped(5, 1000, 7), 4);
    assert_eq!(wrapped(usize::MAX, isize::MAX, 10), ((usize::MAX as u128 + isize::MAX as u128) % 10) as usize);
    assert_eq!(wrapped(0, isize::MIN, 10), 2);
}

#[test]
fn numbers_are_tagged_with_their_places() {
    assert_eq!(tag(&vec![4, -1, 0], 3), Some(vec![(12, 0), (-3, 1), (0, 2)]));
    assert_eq!(tag(&vec![], 3), Some(vec![]));
    assert_eq!(tag(&vec![1, isize::MAX], 2), None);
    assert_eq!(tag(&vec![isize::MIN], -1), None);
    assert_eq!(tag(&vec![isize::MAX, 0], 1), Some(vec![(isize::MAX, 0), (0, 1)]));
}

#[test]
fn number_is_found_by_its_first_place() {
    let ring = vec![(2, 1), (1, 0), (0, 2)];
    assert_eq!(find_slot(&ring, 0), 1);
    assert_eq!(find_slot(&ring, 1), 0);
    assert_eq!(find_slot(&ring, 2), 2);
    assert_eq!(find_slot(&ring, 3), 3);
    assert_eq!(find_zero(&ring), 2);
    assert_eq!(find_zero(&vec![(2, 1), (1, 0)]), 2);
    assert_eq!(find_zero(&vec![]), 0);
}

#[test]
fn numbers_move_one_after_another() {
    let mut ring = vec![(1, 0), (2, 1), (-3, 2)];
    move_number(&mut ring, 0);
    assert_eq!(ring, vec![(2, 1), (1, 0), (-3, 2)]);
    move_number(&mut ring, 1);
    assert_eq!(ring, vec![(2, 1), (1, 0), (-3, 2)]);
    move_number(&mut ring, 2);
    assert_eq!(ring, vec![(2, 1), (-3, 2), (1, 0)]);
    move_number(&mut ring, 7);
    assert_eq!(ring, vec![(2, 1), (-3, 2), (1, 0)]);
}

#[test]
fn ring_of_one_stays() {
    let mut ring = vec![(5, 0)];
    move_number(&mut ring, 0);
    assert_eq!(ring, vec![(5, 0)]);
    mix(&mut ring, 4);
    assert_eq!(ring, vec![(5, 0)]);
}

#[test]
fn one_round_of_mixing() {
    let mut ring = tag(&NUMBERS.to_vec(), 1).unwrap();
    mix(&mut ring, 0);
    assert_eq!(ring, tag(&NUMBERS.to_vec(), 1).unwrap());
    mix(&mut ring, 1);
    assert_eq!(ring, vec![(-2, 4), (1, 0), (2, 1), (-3, 2), (4, 6), (0, 5), (3, 3)]);
}

#[test]
fn ten_rounds_with_a_key() {
    let mut ring = tag(&NUMBERS.to_vec(), 811589153).unwrap();
    mix(&mut ring, 10);
    assert_eq!(
        ring,
        vec![
            (0, 5),
            (-2434767459, 2),
            (1623178306, 1),
            (3246356612, 6),
            (-1623178306, 4),
            (2434767459, 3),
            (811589153, 0)
        ]
    );
}

#[test]
fn grove_coordinates_of_the_example() {
    assert_eq!(grove_coordinates(&NUMBERS.to_vec(), 1, 1), Some(3));
    assert_eq!(grove_coordinates(&NUMBERS.to_vec(), 811589153, 10), Some(1623178306));
    assert_eq!(grove_coordinates(&NUMBERS.to_vec(), 1, 0), Some(-2));
}

#[test]
fn grove_coordinates_that_cannot_be_had() {
    assert_eq!(grove_coordinates(&vec![], 1, 1), None);
    assert_eq!(grove_coordinates(&vec![0], 1, 1), None);
    assert_eq!(grove_coordinates(&vec![1, 2, 3], 1, 1), None);
    assert_eq!(grove_coordinates(&vec![0, isize::MAX], 2, 1), None);
    assert_eq!(grove_coordinates(&vec![0, isize::MAX, 1], 1, 0), None);
    assert_eq!(grove_coordinates(&vec![0, isize::MAX, -1], 1, 0), Some(isize::MAX - 1));
    assert_eq!(grove_coordinates(&vec![0, 1], 1, 1), Some(0));
    assert_eq!(grove_coordinates(&vec![1, 2, 3], 0, 1), Some(0));
}
