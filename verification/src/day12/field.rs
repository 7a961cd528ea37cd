//! A field read from a map of letters, and the answers read off the field
//! once the ways over it are known.

use vstd::prelude::*;
use crate::day12::GridCell;

verus! {

/// A field with the places that the map marks: where the way starts, where
/// it ends, and the places at the lowest height.
pub struct Field {
    pub grid: Vec<Vec<GridCell>>,
    pub start: (usize, usize),
    pub end: (usize, usize),
    pub low: Vec<(usize, usize)>,
}

/// The height that a letter of the map stands for: 0 to 25 for `a` to `z`
/// and so on for what follows them, 0 for the start `S` and 25 for the end
/// `E`; none for any other byte before `a`.
pub open spec fn height_of(b: u8) -> Option<u8> {
    if b == 83 {
        Some(0u8)
    } else if b == 69 {
        Some(25u8)
    } else if b >= 97 {
        Some((b - 97) as u8)
    } else {
        None
    }
}

/// Whether every byte of the map stands for a height.
pub open spec fn readable(rows: Seq<Vec<u8>>) -> bool {
    forall|y: int, x: int|
        0 <= y < rows.len() && 0 <= x < rows[y]@.len() ==> height_of(#[trigger] rows[y]@[x]) is Some
}

/// The places among the first `n` bytes of row `y` that hold the byte `b`.
pub open spec fn marks_in_row(row: Seq<u8>, b: u8, y: int, n: int) -> Seq<(usize, usize)>
    decreases n,
{
    if n <= 0 {
        Seq::empty()
    } else if row[n - 1] == b {
        marks_in_row(row, b, y, n - 1).push(((n - 1) as usize, y as usize))
    } else {
        marks_in_row(row, b, y, n - 1)
    }
}

/// The places of the first `n` rows that hold the byte `b`, row by row.
pub open spec fn marks_in(rows: Seq<Vec<u8>>, b: u8, n: int) -> Seq<(usize, usize)>
    decreases n,
{
    if n <= 0 {
        Seq::empty()
    } else {
        marks_in(rows, b, n - 1) + marks_in_row(rows[n - 1]@, b, n - 1, rows[n - 1]@.len() as int)
    }
}

/// The last of the places, or the first place of the map if there is none.
pub open spec fn last_or_origin(places: Seq<(usize, usize)>) -> (usize, usize) {
    if places.len() == 0 {
        (0usize, 0usize)
    } else {
        places.last()
    }
}

/// The places of the map that hold the byte `b`, row by row.
pub fn find_marks(rows: &Vec<Vec<u8>>, b: u8) -> (places: Vec<(usize, usize)>)
    ensures
        places@ == marks_in(rows@, b, rows@.len() as int),
{
    let mut places: Vec<(usize, usize)> = Vec::new();
    let mut y: usize = 0;
    assert(places@ =~= marks_in(rows@, b, 0));
    while y < rows.len()
        invariant
            y <= rows@.len(),
            places@ == marks_in(rows@, b, y as int),
        decreases rows@.len() - y,
    {
        let ghost before = places@;
        let mut x: usize = 0;
        assert(places@ =~= before + marks_in_row(rows@[y as int]@, b, y as int, 0));
        while x < rows[y].len()
            invariant
                y < rows@.len(),
                x <= rows@[y as int]@.len(),
                places@ == before + marks_in_row(rows@[y as int]@, b, y as int, x as int),
            decreases rows@[y as int]@.len() - x,
        {
            if rows[y][x] == b {
                let ghost listed = places@;
                places.push((x, y));
                assert(listed.push((x, y)) =~= before + marks_in_row(
                    rows@[y as int]@,
                    b,
                    y as int,
                    x + 1,
                ));
            }
            x += 1;
        }
        y += 1;
    }
    places
}

/// The field that the rows of a map stand for, with no way over it known
/// yet; `None` if a byte stands for no height. The start is the last `S`
/// and the end the last `E`; where the map has none, it is the first
/// place.
pub fn read_field(rows: &Vec<Vec<u8>>) -> (field: Option<Field>)
    ensures
        field is Some == readable(rows@),
        field matches Some(f) ==> {
            &&& f.grid@.len() == rows@.len()
            &&& forall|y: int| 0 <= y < rows@.len() ==> (#[trigger] f.grid@[y])@.len() == rows@[y]@.len()
            &&& forall|y: int, x: int|
                0 <= y < rows@.len() && 0 <= x < rows@[y]@.len() ==> #[trigger] f.grid@[y]@[x] == (
                GridCell {
                    coord: (x as usize, y as usize),
                    height: height_of(rows@[y]@[x])->0,
                    dist: -1i32,
                })
            &&& f.start == last_or_origin(marks_in(rows@, 83, rows@.len() as int))
            &&& f.end == last_or_origin(marks_in(rows@, 69, rows@.len() as int))
            &&& f.low@ == marks_in(rows@, 97, rows@.len() as int)
        },
{
    let mut grid: Vec<Vec<GridCell>> = Vec::new();
    let mut y: usize = 0;
    while y < rows.len()
        invariant
            y <= rows@.len(),
            grid@.len() == y,
            forall|k: int| 0 <= k < y ==> (#[trigger] grid@[k])@.len() == rows@[k]@.len(),
            forall|k: int, x: int|
                0 <= k < y && 0 <= x < rows@[k]@.len() ==> height_of(#[trigger] rows@[k]@[x]) is Some,
            forall|k: int, x: int|
                0 <= k < y && 0 <= x < rows@[k]@.len() ==> #[trigger] grid@[k]@[x] == (GridCell {
                    coord: (x as usize, k as usize),
                    height: height_of(rows@[k]@[x])->0,
                    dist: -1i32,
                }),
        decreases rows@.len() - y,
    {
        let mut row: Vec<GridCell> = Vec::new();
        let mut x: usize = 0;
        while x < rows[y].len()
            invariant
                y < rows@.len(),
                x <= rows@[y as int]@.len(),
                row@.len() == x,
                forall|k: int| 0 <= k < x ==> height_of(#[trigger] rows@[y as int]@[k]) is Some,
                forall|k: int|
                    0 <= k < x ==> #[trigger] row@[k] == (GridCell {
                        coord: (k as usize, y),
                        height: height_of(rows@[y as int]@[k])->0,
                        dist: -1i32,
                    }),
            decreases rows@[y as int]@.len() - x,
        {
            let b = rows[y][x];
            let height: u8 = if b == 83 {
                0
            } else if b == 69 {
                25
            } else if b >= 97 {
                b - 97
            } else {
                assert(height_of(rows@[y as int]@[x as int]) is None);
                return None;
            };
            row.push(GridCell { coord: (x, y), height, dist: -1 });
            x += 1;
        }
        grid.push(row);
        y += 1;
    }
    let starts = find_marks(rows, 83);
    let ends = find_marks(rows, 69);
    let low = find_marks(rows, 97);
    let start = if starts.len() == 0 {
        (0, 0)
    } else {
        starts[starts.len() - 1]
    };
    let end = if ends.len() == 0 {
        (0, 0)
    } else {
        ends[ends.len() - 1]
    };
    Some(Field { grid, start, end, low })
}

/// Whether `least` is the smallest number of steps, above 0, that is
/// marked at one of the places; none if no place is marked so.
pub open spec fn is_least_marked(grid: Seq<Vec<GridCell>>, places: Seq<(usize, usize)>, least: Option<
    i32,
>) -> bool {
    match least {
        Some(d) => d > 0 && (exists|i: int|
            0 <= i < places.len() && grid[(#[trigger] places[i]).1 as int]@[places[i].0 as int].dist
                == d) && forall|i: int|
            0 <= i < places.len() && grid[(#[trigger] places[i]).1 as int]@[places[i].0 as int].dist
                > 0 ==> d <= grid[places[i].1 as int]@[places[i].0 as int].dist,
        None => forall|i: int|
            0 <= i < places.len() ==> grid[(#[trigger] places[i]).1 as int]@[places[i].0 as int].dist
                <= 0,
    }
}

/// The smallest number of steps, above 0, that is marked at one of the
/// places.
pub fn fewest_steps(grid: &Vec<Vec<GridCell>>, places: &Vec<(usize, usize)>) -> (least: Option<i32>)
    requires
        forall|i: int|
            0 <= i < places@.len() ==> (#[trigger] places@[i]).1 < grid@.len() && places@[i].0
                < grid@[places@[i].1 as int]@.len(),
    ensures
        is_least_marked(grid@, places@, least),
{
    let mut least: Option<i32> = None;
    let mut i: usize = 0;
    while i < places.len()
        invariant
            i <= places@.len(),
            forall|k: int|
                0 <= k < places@.len() ==> (#[trigger] places@[k]).1 < grid@.len() && places@[k].0
                    < grid@[places@[k].1 as int]@.len(),
            is_least_marked(grid@, places@.take(i as int), least),
        decreases places@.len() - i,
    {
        let ghost before = places@.take(i as int);
        let ghost after = places@.take(i + 1);
        let ghost found = least;
        let (x, y) = places[i];
        let d = grid[y][x].dist;
        let better = match least {
            Some(known) => 0 < d && d < known,
            None => 0 < d,
        };
        if better {
            least = Some(d);
        }
        proof {
            assert(after[i as int] == places@[i as int]);
            assert forall|k: int| 0 <= k < i implies after[k] == before[k] by {}
            match found {
                Some(known) => {
                    let at = choose|at: int|
                        0 <= at < before.len() && grid@[(#[trigger] before[at]).1 as int]@[before[at].0 as int].dist
                            == known;
                    assert(after[at] == before[at]);
                    if better {
                        assert(grid@[after[i as int].1 as int]@[after[i as int].0 as int].dist == d);
                    }
                    assert forall|k: int|
                        0 <= k < after.len() && grid@[(#[trigger] after[k]).1 as int]@[after[k].0 as int].dist
                            > 0 implies least->0 <= grid@[after[k].1 as int]@[after[k].0 as int].dist by {
                        if k < i {
                            assert(after[k] == before[k]);
                        }
                    }
                },
                None => {
                    if better {
                        assert(grid@[after[i as int].1 as int]@[after[i as int].0 as int].dist == d);
                    }
                    assert forall|k: int| 0 <= k < i implies grid@[(#[trigger] after[k]).1 as int]@[after[k].0 as int].dist
                        <= 0 by {
                        assert(after[k] == before[k]);
                    }
                },
            }
        }
        i += 1;
    }
    assert(places@.take(i as int) =~= places@);
    least
}

} // verus!
