//! The valley as it is drawn on a map, and the blizzards minute by minute.

use vstd::prelude::*;
use crate::day24::basin::{count, inside, upwind, Blizzards, Direction};
use crate::day24::rewind::is_layer;

verus! {

/// A valley read from a map: its blizzards and walls, and where one goes
/// in and comes out.
pub struct Valley {
    pub blizzards: Blizzards,
    pub walls: Vec<Vec<bool>>,
    pub entrance: (usize, usize),
    pub exit: (usize, usize),
}

/// The direction of the blizzard that the byte stands for, if it stands
/// for one.
pub open spec fn blizzard_of(b: u8) -> Option<Direction> {
    if b == 94 {
        Some(Direction::North)
    } else if b == 62 {
        Some(Direction::East)
    } else if b == 118 {
        Some(Direction::South)
    } else if b == 60 {
        Some(Direction::West)
    } else {
        None
    }
}

/// Whether the byte stands for open ground, a wall or a blizzard.
pub open spec fn known(b: u8) -> bool {
    b == 46 || b == 35 || blizzard_of(b) is Some
}

/// Whether the rows can be read as a valley: there is a first row, no row
/// is longer than it, and every byte is known.
pub open spec fn drawn(rows: Seq<Vec<u8>>) -> bool {
    &&& rows.len() > 0
    &&& forall|y: int| 0 <= y < rows.len() ==> (#[trigger] rows[y])@.len() <= rows[0]@.len()
    &&& forall|y: int, x: int|
        0 <= y < rows.len() && 0 <= x < rows[y]@.len() ==> known(#[trigger] rows[y]@[x])
}

/// The byte at column `x` of row `y`; open ground where the row is too
/// short.
pub open spec fn byte_at(rows: Seq<Vec<u8>>, x: int, y: int) -> u8 {
    if x < rows[y]@.len() {
        rows[y]@[x]
    } else {
        46
    }
}

/// The blizzards that the byte stands for: one or none.
pub open spec fn blowing(b: u8) -> Seq<Direction> {
    match blizzard_of(b) {
        Some(d) => seq![d],
        None => Seq::empty(),
    }
}

/// The first column at or after `from` at which the row has open ground,
/// or the length of the row if there is none.
pub open spec fn first_open(row: Seq<u8>, from: int) -> int
    decreases row.len() - from,
{
    if from >= row.len() {
        row.len() as int
    } else if row[from] == 46 {
        from
    } else {
        first_open(row, from + 1)
    }
}

/// The place at column `x` of row `y`, or the first place of the map if
/// the row is not so long.
pub open spec fn place_or_origin(row: Seq<u8>, x: int, y: int) -> (usize, usize) {
    if 0 <= x < row.len() {
        (x as usize, y as usize)
    } else {
        (0usize, 0usize)
    }
}

/// Where one goes in: at the first open ground of the first row.
pub open spec fn entrance_of(rows: Seq<Vec<u8>>) -> (usize, usize) {
    place_or_origin(rows[0]@, first_open(rows[0]@, 0), 0)
}

/// Where one comes out: at the first open ground of the last row, the
/// entrance not counted.
pub open spec fn exit_of(rows: Seq<Vec<u8>>) -> (usize, usize) {
    if rows.len() == 1 {
        place_or_origin(rows[0]@, first_open(rows[0]@, first_open(rows[0]@, 0) + 1), 0)
    } else {
        place_or_origin(rows.last()@, first_open(rows.last()@, 0), rows.len() - 1)
    }
}

/// The first column at or after `from` at which the row has open ground.
pub fn find_open(row: &[u8], from: usize) -> (at: usize)
    ensures
        at == if from <= row@.len() {
            first_open(row@, from as int)
        } else {
            row@.len() as int
        },
        at <= row@.len(),
{
    if from > row.len() {
        return row.len();
    }
    let mut at = from;
    while at < row.len() && row[at] != 46
        invariant
            from <= at <= row@.len(),
            first_open(row@, from as int) == first_open(row@, at as int),
        decreases row@.len() - at,
    {
        at += 1;
    }
    at
}

/// The valley that the rows of a map draw; `None` if they cannot be read
/// as one.
pub fn read_valley(rows: &Vec<Vec<u8>>) -> (valley: Option<Valley>)
    ensures
        valley is Some == drawn(rows@),
        valley matches Some(v) ==> {
            &&& v.blizzards.is_grid(rows@[0]@.len() as int, rows@.len() as int)
            &&& is_layer(v.walls@, rows@[0]@.len() as int, rows@.len() as int)
            &&& forall|x: int, y: int|
                0 <= y < rows@.len() && 0 <= x < rows@[0]@.len() ==> #[trigger] v.blizzards.at(x, y)
                    == blowing(byte_at(rows@, x, y))
            &&& forall|x: int, y: int|
                0 <= y < rows@.len() && 0 <= x < rows@[0]@.len() ==> #[trigger] v.walls@[y]@[x] == (
                byte_at(rows@, x, y) == 35)
            &&& v.entrance == entrance_of(rows@)
            &&& v.exit == exit_of(rows@)
        },
{
    if rows.len() == 0 {
        return None;
    }
    let height = rows.len();
    let width = rows[0].len();
    let mut cells: Vec<Vec<Vec<Direction>>> = Vec::new();
    let mut walls: Vec<Vec<bool>> = Vec::new();
    let mut y: usize = 0;
    while y < height
        invariant
            y <= height,
            height == rows@.len(),
            width == rows@[0]@.len(),
            cells@.len() == y,
            walls@.len() == y,
            forall|k: int| 0 <= k < y ==> (#[trigger] rows@[k])@.len() <= width,
            forall|k: int, x: int|
                0 <= k < y && 0 <= x < rows@[k]@.len() ==> known(#[trigger] rows@[k]@[x]),
            forall|k: int| 0 <= k < y ==> (#[trigger] cells@[k])@.len() == width,
            forall|k: int| 0 <= k < y ==> (#[trigger] walls@[k])@.len() == width,
            forall|x: int, k: int|
                0 <= k < y && 0 <= x < width ==> (#[trigger] cells@[k]@[x])@ == blowing(
                    byte_at(rows@, x, k),
                ),
            forall|x: int, k: int|
                0 <= k < y && 0 <= x < width ==> #[trigger] walls@[k]@[x] == (byte_at(rows@, x, k)
                    == 35),
        decreases height - y,
    {
        if rows[y].len() > width {
            return None;
        }
        let mut cell_row: Vec<Vec<Direction>> = Vec::new();
        let mut wall_row: Vec<bool> = Vec::new();
        let mut x: usize = 0;
        while x < width
            invariant
                x <= width,
                y < rows@.len(),
                rows@[y as int]@.len() <= width,
                cell_row@.len() == x,
                wall_row@.len() == x,
                forall|k: int|
                    0 <= k < x && k < rows@[y as int]@.len() ==> known(
                        #[trigger] rows@[y as int]@[k],
                    ),
                forall|k: int|
                    0 <= k < x ==> (#[trigger] cell_row@[k])@ == blowing(byte_at(rows@, k, y as int)),
                forall|k: int|
                    0 <= k < x ==> #[trigger] wall_row@[k] == (byte_at(rows@, k, y as int) == 35),
            decreases width - x,
        {
            let b: u8 = if x < rows[y].len() {
                rows[y][x]
            } else {
                46
            };
            let mut here: Vec<Direction> = Vec::new();
            if b == 94 {
                here.push(Direction::North);
            } else if b == 62 {
                here.push(Direction::East);
            } else if b == 118 {
                here.push(Direction::South);
            } else if b == 60 {
                here.push(Direction::West);
            } else if b != 46 && b != 35 {
                assert(!known(rows@[y as int]@[x as int]));
                return None;
            }
            assert(here@ =~= blowing(b));
            cell_row.push(here);
            wall_row.push(b == 35);
            x += 1;
        }
        cells.push(cell_row);
        walls.push(wall_row);
        y += 1;
    }
    let first = find_open(rows[0].as_slice(), 0);
    let entrance = if first < rows[0].len() {
        (first, 0)
    } else {
        (0, 0)
    };
    let exit = if height == 1 {
        let second = if first < rows[0].len() {
            find_open(rows[0].as_slice(), first + 1)
        } else {
            first
        };
        if second < rows[0].len() {
            (second, 0)
        } else {
            (0, 0)
        }
    } else {
        let last = find_open(rows[height - 1].as_slice(), 0);
        if last < rows[height - 1].len() {
            (last, height - 1)
        } else {
            (0, 0)
        }
    };
    let valley = Valley { blizzards: Blizzards(cells), walls, entrance, exit };
    proof {
        assert forall|x: int, k: int| 0 <= k < rows@.len() && 0 <= x < rows@[0]@.len() implies #[trigger] valley.blizzards.at(
            x,
            k,
        ) == blowing(byte_at(rows@, x, k)) by {
            assert(cells@[k]@[x]@ == blowing(byte_at(rows@, x, k)));
        }
    }
    Some(valley)
}

/// Whether the blizzards `later` are the blizzards `before` a minute on:
/// at every place within the walls, as many blow in each direction as blew
/// in it a step upwind.
pub open spec fn blown_on(before: Blizzards, later: Blizzards, width: int, height: int) -> bool {
    forall|x: int, y: int, d: Direction|
        inside(x, y, width, height) ==> #[trigger] count(later.at(x, y), d) == count(
            before.at(upwind(d, x, y, width, height).0, upwind(d, x, y, width, height).1),
            d,
        )
}

/// The blizzards of every minute until they are as at the start again:
/// of as many minutes as the valley has places. `None` if that number
/// does not fit.
pub fn forecast(initial: Blizzards, width: usize, height: usize) -> (all: Option<Vec<Blizzards>>)
    requires
        width >= 3,
        height >= 3,
        initial.is_grid(width as int, height as int),
        initial.walls_clear(width as int, height as int),
    ensures
        all is Some == (width * height <= usize::MAX),
        all matches Some(v) ==> {
            &&& v@.len() == width * height
            &&& v@[0] == initial
            &&& forall|m: int|
                0 <= m < v@.len() ==> (#[trigger] v@[m]).is_grid(width as int, height as int)
                    && v@[m].walls_clear(width as int, height as int)
            &&& forall|m: int|
                0 <= m < v@.len() - 1 ==> blown_on(
                    #[trigger] v@[m],
                    v@[m + 1],
                    width as int,
                    height as int,
                )
        },
{
    let minutes = match width.checked_mul(height) {
        Some(minutes) => minutes,
        None => {
            return None;
        },
    };
    assert(minutes >= 9) by (nonlinear_arith)
        requires
            minutes == width * height,
            width >= 3,
            height >= 3,
    ;
    let mut all: Vec<Blizzards> = Vec::new();
    all.push(initial);
    let mut i: usize = 1;
    while i < minutes
        invariant
            1 <= i <= minutes,
            width >= 3,
            height >= 3,
            all@.len() == i,
            all@[0] == initial,
            forall|m: int|
                0 <= m < i ==> (#[trigger] all@[m]).is_grid(width as int, height as int)
                    && all@[m].walls_clear(width as int, height as int),
            forall|m: int|
                0 <= m < i - 1 ==> blown_on(#[trigger] all@[m], all@[m + 1], width as int, height as int),
        decreases minutes - i,
    {
        let ghost last = all@[i - 1];
        assert(last.is_grid(width as int, height as int));
        assert(last.0@[0]@.len() == width);
        let new_blizzards = all[i - 1].next();
        all.push(new_blizzards);
        assert(blown_on(all@[i - 1], all@[i as int], width as int, height as int));
        i += 1;
    }
    Some(all)
}

} // verus!
