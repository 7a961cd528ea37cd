//! The board as it is drawn: rows of open tiles, walls and blanks, each
//! open tile joined to the next tile in its row and column, round the
//! edges of the drawing and over the blanks.

use vstd::prelude::*;
use vstd::string::StringSliceAdditionalSpecFns;
use crate::text::copy_part;
use crate::day22::{
    instructions_of, read_instructions, Agent, Direction, Instruction, MapCell, Rotation, WrapMap,
};
use crate::text::{find_byte, next_byte};

verus! {

/// The byte that ends a line.
pub const NEWLINE: u8 = 10;

/// The byte of an open tile.
pub const OPEN: u8 = 46;

/// The byte of a wall.
pub const WALL: u8 = 35;

/// The rows of the drawing: the lines of the text from `from` up to the
/// first empty line.
pub open spec fn rows_from(s: Seq<u8>, from: int) -> Seq<Seq<u8>>
    decreases s.len() - from,
{
    if from >= s.len() || from < 0 {
        Seq::empty()
    } else {
        let end = next_byte(s, NEWLINE, from);
        if end <= from {
            Seq::empty()
        } else if end >= s.len() {
            seq![s.subrange(from, end)]
        } else {
            seq![s.subrange(from, end)] + rows_from(s, end + 1)
        }
    }
}

/// The length of the longest of the first `n` rows.
pub open spec fn widest(rows: Seq<Seq<u8>>, n: nat) -> nat
    decreases n,
{
    if n == 0 {
        0
    } else {
        let before = widest(rows, (n - 1) as nat);
        if rows[n - 1].len() > before {
            rows[n - 1].len()
        } else {
            before
        }
    }
}

/// The byte drawn at column `x` of row `y`; a blank where nothing is.
pub open spec fn tile(rows: Seq<Seq<u8>>, x: int, y: int) -> u8 {
    if 0 <= y < rows.len() && 0 <= x < rows[y].len() {
        rows[y][x]
    } else {
        32
    }
}

/// The open tile that comes next after `x`, `y` when going on by `dx`
/// columns and `dy` rows at a time, round the edges of a drawing of the
/// given width and height, over blanks, for at most `steps` steps; `None`
/// where a wall comes first or nothing comes.
pub open spec fn seek(
    rows: Seq<Seq<u8>>,
    x: int,
    y: int,
    dx: int,
    dy: int,
    width: int,
    height: int,
    steps: nat,
) -> Option<((usize, usize), Rotation)>
    decreases steps,
{
    if steps == 0 {
        None
    } else {
        let nx = (x + dx) % width;
        let ny = (y + dy) % height;
        if tile(rows, nx, ny) == OPEN {
            Some(((nx as usize, ny as usize), Rotation::Nothing))
        } else if tile(rows, nx, ny) == WALL {
            None
        } else {
            seek(rows, nx, ny, dx, dy, width, height, (steps - 1) as nat)
        }
    }
}

/// The cell of the board at column `x` of row `y`: none unless an open
/// tile is drawn there, and else joined to the next tiles in its row and
/// column.
pub open spec fn cell_of(rows: Seq<Seq<u8>>, x: int, y: int, width: int, height: int) -> Option<
    MapCell,
> {
    if tile(rows, x, y) == OPEN {
        Some(
            MapCell {
                north: seek(rows, x, y, 0, height - 1, width, height, height as nat),
                east: seek(rows, x, y, 1, 0, width, height, width as nat),
                south: seek(rows, x, y, 0, 1, width, height, height as nat),
                west: seek(rows, x, y, width - 1, 0, width, height, width as nat),
            },
        )
    } else {
        None
    }
}

/// The first column of row 0 at or after `from` with an open tile, or the
/// width if there is none.
pub open spec fn first_open(rows: Seq<Seq<u8>>, from: int, width: int) -> int
    decreases width - from,
{
    if from >= width {
        width
    } else if tile(rows, from, 0) == OPEN {
        from
    } else {
        first_open(rows, from + 1, width)
    }
}

/// The rows of the drawing that the text begins with.
pub fn read_rows(bytes: &[u8]) -> (rows: Vec<Vec<u8>>)
    ensures
        deep(rows@) == rows_from(bytes@, 0),
{
    let ghost s = bytes@;
    let mut rows: Vec<Vec<u8>> = Vec::new();
    let mut from: usize = 0;
    assert(deep(rows@) =~= Seq::empty());
    assert(Seq::<Seq<u8>>::empty() + rows_from(s, 0) =~= rows_from(s, 0));
    while from < bytes.len()
        invariant
            s == bytes@,
            rows_from(s, 0) == deep(rows@) + rows_from(s, from as int),
        decreases bytes@.len() - from,
    {
        let end = find_byte(bytes, NEWLINE, from);
        if end == from {
            assert(deep(rows@) + Seq::<Seq<u8>>::empty() =~= deep(rows@));
            return rows;
        }
        let ghost before = deep(rows@);
        let ghost line = s.subrange(from as int, end as int);
        rows.push(copy_part(bytes, from, end));
        proof {
            assert(deep(rows@) =~= before + seq![line]);
            if end < s.len() {
                assert(before + (seq![line] + rows_from(s, end + 1)) =~= deep(rows@) + rows_from(
                    s,
                    end + 1,
                ));
            } else {
                assert(before + seq![line] =~= deep(rows@));
            }
        }
        if end == bytes.len() {
            return rows;
        }
        from = end + 1;
    }
    assert(deep(rows@) + Seq::<Seq<u8>>::empty() =~= deep(rows@));
    rows
}

/// The rows as sequences of bytes.
pub open spec fn deep(rows: Seq<Vec<u8>>) -> Seq<Seq<u8>> {
    Seq::new(rows.len(), |i: int| rows[i]@)
}

/// The length of the longest row.
pub fn widest_row(rows: &Vec<Vec<u8>>) -> (width: usize)
    ensures
        width == widest(deep(rows@), rows@.len()),
{
    let mut width: usize = 0;
    let mut y: usize = 0;
    while y < rows.len()
        invariant
            y <= rows@.len(),
            width == widest(deep(rows@), y as nat),
        decreases rows@.len() - y,
    {
        if rows[y].len() > width {
            width = rows[y].len();
        }
        y += 1;
    }
    width
}

/// The byte drawn at column `x` of row `y`.
pub fn tile_at(rows: &Vec<Vec<u8>>, x: usize, y: usize) -> (b: u8)
    ensures
        b == tile(deep(rows@), x as int, y as int),
{
    if y < rows.len() && x < rows[y].len() {
        rows[y][x]
    } else {
        32
    }
}

/// The open tile that comes next after `x`, `y`.
pub fn seek_next(
    rows: &Vec<Vec<u8>>,
    x: usize,
    y: usize,
    dx: usize,
    dy: usize,
    width: usize,
    height: usize,
    steps: usize,
) -> (next: Option<((usize, usize), Rotation)>)
    requires
        0 < width,
        0 < height,
        x < width,
        y < height,
        dx <= width,
        dy <= height,
        width + width <= usize::MAX,
        height + height <= usize::MAX,
    ensures
        next == seek(
            deep(rows@),
            x as int,
            y as int,
            dx as int,
            dy as int,
            width as int,
            height as int,
            steps as nat,
        ),
{
    let mut next_x = x;
    let mut next_y = y;
    let mut left = steps;
    while left > 0
        invariant
            0 < width,
            0 < height,
            next_x < width,
            next_y < height,
            dx <= width,
            dy <= height,
            width + width <= usize::MAX,
            height + height <= usize::MAX,
            seek(
                deep(rows@),
                x as int,
                y as int,
                dx as int,
                dy as int,
                width as int,
                height as int,
                steps as nat,
            ) == seek(
                deep(rows@),
                next_x as int,
                next_y as int,
                dx as int,
                dy as int,
                width as int,
                height as int,
                left as nat,
            ),
        decreases left,
    {
        next_x = (next_x + dx) % width;
        next_y = (next_y + dy) % height;
        let c = tile_at(rows, next_x, next_y);
        if c == OPEN {
            return Some(((next_x, next_y), Rotation::Nothing));
        } else if c == WALL {
            return None;
        }
        left -= 1;
    }
    None
}

/// The cell of the board at column `x` of row `y`.
pub fn read_cell(rows: &Vec<Vec<u8>>, x: usize, y: usize, width: usize, height: usize) -> (cell:
    Option<MapCell>)
    requires
        x < width,
        y < height,
        width + width <= usize::MAX,
        height + height <= usize::MAX,
    ensures
        cell == cell_of(deep(rows@), x as int, y as int, width as int, height as int),
{
    if tile_at(rows, x, y) == OPEN {
        let west = seek_next(rows, x, y, width - 1, 0, width, height, width);
        let east = seek_next(rows, x, y, 1, 0, width, height, width);
        let north = seek_next(rows, x, y, 0, height - 1, width, height, height);
        let south = seek_next(rows, x, y, 0, 1, width, height, height);
        Some(MapCell { north, east, south, west })
    } else {
        None
    }
}

/// Where the last line of a text of `n` bytes begins: after the last line
/// end, or at the start.
pub open spec fn last_line_start(s: Seq<u8>, n: nat) -> nat
    decreases n,
{
    if n == 0 {
        0
    } else if s[n - 1] == NEWLINE {
        n
    } else {
        last_line_start(s, (n - 1) as nat)
    }
}

/// The text without the line end that closes it, if it has one.
pub open spec fn unclosed(s: Seq<u8>) -> Seq<u8> {
    if s.len() > 0 && s.last() == NEWLINE {
        s.drop_last()
    } else {
        s
    }
}

/// The last line of the text.
pub open spec fn last_line(s: Seq<u8>) -> Seq<u8> {
    let t = unclosed(s);
    t.subrange(last_line_start(t, t.len()) as int, t.len() as int)
}

/// The last line of the text.
pub fn read_last_line(bytes: &[u8]) -> (line: Vec<u8>)
    ensures
        line@ == last_line(bytes@),
{
    let ghost t = unclosed(bytes@);
    let end = if bytes.len() > 0 && bytes[bytes.len() - 1] == NEWLINE {
        bytes.len() - 1
    } else {
        bytes.len()
    };
    assert(t =~= bytes@.subrange(0, end as int));
    let mut start = end;
    while start > 0 && bytes[start - 1] != NEWLINE
        invariant
            start <= end <= bytes@.len(),
            t == bytes@.subrange(0, end as int),
            last_line_start(t, end as nat) == last_line_start(t, start as nat),
        decreases start,
    {
        start -= 1;
    }
    let line = copy_part(bytes, start, end);
    assert(line@ =~= t.subrange(start as int, end as int));
    line
}

/// Whether the board is the one that the rows draw.
pub open spec fn draws(rows: Seq<Seq<u8>>, map: &WrapMap) -> bool {
    let height = rows.len() as int;
    let width = widest(rows, rows.len()) as int;
    &&& map.rows@.len() == height
    &&& forall|y: int| 0 <= y < height ==> (#[trigger] map.rows@[y])@.len() == width
    &&& forall|x: int, y: int|
        0 <= x < width && 0 <= y < height ==> #[trigger] map.rows@[y]@[x] == cell_of(
            rows,
            x,
            y,
            width,
            height,
        )
}

/// Whether twice the width or twice the height of the drawing is more
/// than the machine's integers hold.
pub open spec fn too_large(rows: Seq<Seq<u8>>) -> bool {
    widest(rows, rows.len()) + widest(rows, rows.len()) > usize::MAX || rows.len() + rows.len()
        > usize::MAX
}

/// The board that the rows draw; `None` where the drawing is too large
/// for the machine's integers.
pub fn read_board(rows: &Vec<Vec<u8>>) -> (map: Option<WrapMap>)
    ensures
        match map {
            Some(m) => draws(deep(rows@), &m),
            None => too_large(deep(rows@)),
        },
{
    let height = rows.len();
    let width = widest_row(rows);
    if width > usize::MAX - width || height > usize::MAX - height {
        return None;
    }
    let mut cells: Vec<Vec<Option<MapCell>>> = Vec::new();
    let mut y: usize = 0;
    while y < height
        invariant
            y <= height,
            height == rows@.len(),
            width == widest(deep(rows@), rows@.len()),
            width + width <= usize::MAX,
            height + height <= usize::MAX,
            cells@.len() == y,
            forall|r: int| 0 <= r < y ==> (#[trigger] cells@[r])@.len() == width,
            forall|x: int, r: int|
                0 <= x < width && 0 <= r < y ==> #[trigger] cells@[r]@[x] == cell_of(
                    deep(rows@),
                    x,
                    r,
                    width as int,
                    height as int,
                ),
        decreases height - y,
    {
        let mut row: Vec<Option<MapCell>> = Vec::new();
        let mut x: usize = 0;
        while x < width
            invariant
                x <= width,
                y < height,
                height == rows@.len(),
                width + width <= usize::MAX,
                height + height <= usize::MAX,
                row@.len() == x,
                forall|c: int|
                    0 <= c < x ==> #[trigger] row@[c] == cell_of(
                        deep(rows@),
                        c,
                        y as int,
                        width as int,
                        height as int,
                    ),
            decreases width - x,
        {
            row.push(read_cell(rows, x, y, width, height));
            x += 1;
        }
        cells.push(row);
        y += 1;
    }
    Some(WrapMap { rows: cells })
}

/// Where the agent starts: at the first open tile of the top row, or at
/// the corner if the top row has none.
pub open spec fn start_of(rows: Seq<Seq<u8>>) -> (usize, usize) {
    let width = widest(rows, rows.len()) as int;
    if first_open(rows, 0, width) < width {
        (first_open(rows, 0, width) as usize, 0)
    } else {
        (0, 0)
    }
}

/// Where the agent starts.
pub fn read_start(rows: &Vec<Vec<u8>>) -> (start: (usize, usize))
    ensures
        start == start_of(deep(rows@)),
{
    let width = widest_row(rows);
    let mut x: usize = 0;
    while x < width
        invariant
            x <= width,
            width == widest(deep(rows@), rows@.len()),
            first_open(deep(rows@), 0, width as int) == first_open(
                deep(rows@),
                x as int,
                width as int,
            ),
        decreases width - x,
    {
        if tile_at(rows, x, 0) == OPEN {
            return (x, 0);
        }
        x += 1;
    }
    (0, 0)
}

/// A tile that is found next is an open tile of the drawing.
pub proof fn lemma_seek_lands(
    rows: Seq<Seq<u8>>,
    x: int,
    y: int,
    dx: int,
    dy: int,
    width: int,
    height: int,
    steps: nat,
)
    requires
        0 < width <= usize::MAX,
        0 < height <= usize::MAX,
        0 <= x,
        0 <= y,
        0 <= dx,
        0 <= dy,
    ensures
        seek(rows, x, y, dx, dy, width, height, steps) matches Some((to, _)) ==> to.0 < width
            && to.1 < height && tile(rows, to.0 as int, to.1 as int) == OPEN,
    decreases steps,
{
    if steps > 0 {
        let nx = (x + dx) % width;
        let ny = (y + dy) % height;
        vstd::arithmetic::div_mod::lemma_mod_bound(x + dx, width);
        vstd::arithmetic::div_mod::lemma_mod_bound(y + dy, height);
        lemma_seek_lands(rows, nx, ny, dx, dy, width, height, (steps - 1) as nat);
    }
}

/// On the board that rows draw, every step from a cell leads to a cell.
pub proof fn lemma_drawn_is_closed(rows: Seq<Seq<u8>>, map: &WrapMap)
    requires
        draws(rows, map),
        rows.len() <= usize::MAX,
        widest(rows, rows.len()) <= usize::MAX,
    ensures
        map.closed(),
{
    let height = rows.len() as int;
    let width = widest(rows, rows.len()) as int;
    assert forall|position: (usize, usize), direction: Direction| #[trigger]
        map.leads_within(position, direction) by {
        if map.cell(position) is Some {
            let x = position.0 as int;
            let y = position.1 as int;
            assert(map.rows@[y]@[x] == cell_of(rows, x, y, width, height));
            lemma_seek_lands(rows, x, y, 0, height - 1, width, height, height as nat);
            lemma_seek_lands(rows, x, y, 1, 0, width, height, width as nat);
            lemma_seek_lands(rows, x, y, 0, 1, width, height, height as nat);
            lemma_seek_lands(rows, x, y, width - 1, 0, width, height, width as nat);
            let cell = map.cell(position).unwrap();
            match cell.spec_step(direction) {
                Some((next, _)) => {
                    assert(map.rows@[next.1 as int]@[next.0 as int] == cell_of(
                        rows,
                        next.0 as int,
                        next.1 as int,
                        width,
                        height,
                    ));
                },
                None => {},
            }
        }
    }
}

/// What a text tells of: a board drawn row by row, and after it, on its
/// last line, the way to walk.
pub open spec fn told(
    s: Seq<u8>,
    agent: Agent,
    map: &WrapMap,
    instructions: Seq<Instruction>,
) -> bool {
    &&& s.len() > 0
    &&& draws(rows_from(s, 0), map)
    &&& agent.position == start_of(rows_from(s, 0))
    &&& agent.direction == Direction::East
    &&& instructions_of(last_line(s)) == Some(instructions)
}

/// The agent at its start, the board, and the way to walk that the text
/// tells of; `None` where the text is empty, its last line tells of
/// no way to walk, or the board is too large for the machine's integers.
pub fn parse_input(input: &str) -> (parsed: Option<(Agent, WrapMap, Vec<Instruction>)>)
    ensures
        parsed matches Some((agent, map, instructions)) ==> told(
            input.spec_bytes(),
            agent,
            &map,
            instructions@,
        ) && map.closed(),
        parsed is None ==> input.spec_bytes().len() == 0 || instructions_of(
            last_line(input.spec_bytes()),
        ) is None || too_large(rows_from(input.spec_bytes(), 0)),
{
    let bytes = input.as_bytes();
    if bytes.len() == 0 {
        return None;
    }
    let rows = read_rows(bytes);
    let map = match read_board(&rows) {
        Some(map) => map,
        None => {
            return None;
        },
    };
    let height = rows.len();
    let width = widest_row(&rows);
    proof {
        assert(deep(rows@).len() == height);
        lemma_drawn_is_closed(deep(rows@), &map);
    }
    let position = read_start(&rows);
    let last = read_last_line(bytes);
    match read_instructions(last.as_slice()) {
        Some(instructions) => Some(
            (Agent { position, direction: Direction::East }, map, instructions),
        ),
        None => None,
    }
}

} // verus!
