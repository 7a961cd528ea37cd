//! Looks back in time: a cell is free at time `t` unless a blizzard that
//! started `t` steps upwind of it has arrived there.

use vstd::prelude::*;
use vstd::string::StringSliceAdditionalSpecFns;

verus! {

#[derive(Debug, Clone, Copy, PartialEq, Eq, Structural)]
pub enum Cell {
    Open,
    Wall,
    North,
    East,
    South,
    West,
}

#[derive(Debug)]
pub struct ValleyMap {
    pub width: usize,
    pub height: usize,
    pub rows: Vec<Vec<Cell>>,
}

/// The byte that ends a line.
pub const NEWLINE: u8 = 10;

/// Whether the byte stands for a cell.
pub open spec fn is_cell_byte(b: u8) -> bool {
    b == 46 || b == 35 || b == 94 || b == 62 || b == 118 || b == 60
}

/// The byte that stands for the cell.
pub open spec fn byte_of(cell: Cell) -> u8 {
    match cell {
        Cell::Open => 46,
        Cell::Wall => 35,
        Cell::North => 94,
        Cell::East => 62,
        Cell::South => 118,
        Cell::West => 60,
    }
}

/// The bytes that stand for a row of cells.
pub open spec fn row_text(row: Seq<Cell>) -> Seq<u8> {
    Seq::new(row.len(), |i: int| byte_of(row[i]))
}

/// The text of a map: its rows, one per line, a line end between each two.
pub open spec fn map_text(rows: Seq<Seq<Cell>>) -> Seq<u8>
    decreases rows.len(),
{
    if rows.len() == 0 {
        Seq::empty()
    } else if rows.len() == 1 {
        row_text(rows[0])
    } else {
        map_text(rows.drop_last()) + seq![NEWLINE] + row_text(rows.last())
    }
}

/// The rows of cells that the vectors hold.
pub open spec fn cells_of(rows: Seq<Vec<Cell>>) -> Seq<Seq<Cell>> {
    Seq::new(rows.len(), |i: int| rows[i]@)
}

/// The text without the line end that closes it, if it has one.
pub open spec fn without_final_newline(text: Seq<u8>) -> Seq<u8> {
    if text.len() > 0 && text.last() == NEWLINE {
        text.drop_last()
    } else {
        text
    }
}

/// The cell that a byte stands for.
pub fn cell_of_byte(b: u8) -> (cell: Cell)
    requires
        is_cell_byte(b),
    ensures
        byte_of(cell) == b,
{
    if b == 46 {
        Cell::Open
    } else if b == 35 {
        Cell::Wall
    } else if b == 94 {
        Cell::North
    } else if b == 62 {
        Cell::East
    } else if b == 118 {
        Cell::South
    } else {
        Cell::West
    }
}

/// Where a blizzard that is at `pos` at time `t` was at time 0, when it
/// moves forward by one each step within the positions 1 to `span` and
/// wraps round.
pub open spec fn upwind(pos: int, t: int, span: int) -> int {
    ((pos + span - 1) % span + (span - t % span)) % span + 1
}

/// Where a blizzard that is at `pos` at time `t` was at time 0, when it
/// moves backward by one each step.
pub open spec fn downwind(pos: int, t: int, span: int) -> int {
    ((pos + span - 1) % span + t % span) % span + 1
}

/// The position at time 0 of a blizzard moving forward.
pub fn position_upwind(pos: usize, t: usize, span: usize) -> (at: usize)
    requires
        0 < span,
        pos <= span + 1,
        span + 2 <= usize::MAX / 2,
    ensures
        at == upwind(pos as int, t as int, span as int),
        1 <= at <= span,
{
    ((pos + span - 1) % span + (span - t % span)) % span + 1
}

/// The position at time 0 of a blizzard moving backward.
pub fn position_downwind(pos: usize, t: usize, span: usize) -> (at: usize)
    requires
        0 < span,
        pos <= span + 1,
        span + 2 <= usize::MAX / 2,
    ensures
        at == downwind(pos as int, t as int, span as int),
        1 <= at <= span,
{
    ((pos + span - 1) % span + t % span) % span + 1
}

impl ValleyMap {
    /// The cells as rows of a grid.
    pub open spec fn cells(&self) -> Seq<Seq<Cell>> {
        cells_of(self.rows@)
    }

    /// The map is a rectangle with a wall row above and below and a wall
    /// column left and right of at least one row and column.
    pub open spec fn wf(&self) -> bool {
        &&& self.rows@.len() == self.height
        &&& forall|y: int| 0 <= y < self.height ==> (#[trigger] self.rows@[y])@.len() == self.width
        &&& self.width > 2
        &&& self.height > 2
        &&& self.width + 2 <= usize::MAX / 2
        &&& self.height + 2 <= usize::MAX / 2
    }

    /// Whether no wall and no blizzard is at column `x`, row `y` at time `t`.
    pub open spec fn spec_is_open(&self, x: int, y: int, t: int) -> bool {
        let g = self.cells();
        &&& g[y][x] != Cell::Wall
        &&& g[upwind(y, t, self.height - 2)][x] != Cell::South
        &&& g[downwind(y, t, self.height - 2)][x] != Cell::North
        &&& g[y][upwind(x, t, self.width - 2)] != Cell::East
        &&& g[y][downwind(x, t, self.width - 2)] != Cell::West
    }

    /// The places one can be at time `t` after being at `x`, `y`: above,
    /// below, left, right, and the place itself, each if it is free then.
    pub open spec fn spec_open_neighbours(&self, x: int, y: int, t: int) -> Seq<(usize, usize)> {
        let up = if y > 0 && self.spec_is_open(x, y - 1, t) {
            seq![(x as usize, (y - 1) as usize)]
        } else {
            seq![]
        };
        let down = if y < self.height - 1 && self.spec_is_open(x, y + 1, t) {
            seq![(x as usize, (y + 1) as usize)]
        } else {
            seq![]
        };
        let left = if x > 0 && self.spec_is_open(x - 1, y, t) {
            seq![((x - 1) as usize, y as usize)]
        } else {
            seq![]
        };
        let right = if x < self.width - 1 && self.spec_is_open(x + 1, y, t) {
            seq![((x + 1) as usize, y as usize)]
        } else {
            seq![]
        };
        let wait = if self.spec_is_open(x, y, t) {
            seq![(x as usize, y as usize)]
        } else {
            seq![]
        };
        up + down + left + right + wait
    }

    /// Reads a map from its text: one row per line, one cell per byte.
    pub fn parse(input: &str) -> (map: ValleyMap)
        requires
            input.spec_bytes().len() > 0,
            forall|i: int|
                0 <= i < input.spec_bytes().len() ==> is_cell_byte(#[trigger] input.spec_bytes()[i])
                    || input.spec_bytes()[i] == NEWLINE,
        ensures
            map_text(map.cells()) == without_final_newline(input.spec_bytes()),
            map.height == map.rows@.len(),
            map.height > 0,
            map.width == map.rows@[0]@.len(),
    {
        let bytes = input.as_bytes();
        let mut rows: Vec<Vec<Cell>> = Vec::new();
        let mut row: Vec<Cell> = Vec::new();
        let mut i: usize = 0;
        let ghost text = input.spec_bytes();
        assert(map_text(cells_of(rows@.push(row))) =~= text.subrange(0, 0));
        while i < bytes.len()
            invariant
                i <= bytes@.len(),
                bytes@ == text,
                forall|k: int| 0 <= k < text.len() ==> is_cell_byte(#[trigger] text[k]) || text[k]
                    == NEWLINE,
                map_text(cells_of(rows@.push(row))) == text.subrange(0, i as int),
            decreases bytes@.len() - i,
        {
            let b = bytes[i];
            let ghost before = cells_of(rows@.push(row));
            if b == NEWLINE {
                rows.push(row);
                row = Vec::new();
                proof {
                    let after = cells_of(rows@.push(row));
                    assert(after.drop_last() =~= before);
                    assert(row_text(after.last()) =~= Seq::<u8>::empty());
                    assert(map_text(after) =~= text.subrange(0, i + 1));
                }
            } else {
                let cell = cell_of_byte(b);
                row.push(cell);
                proof {
                    let after = cells_of(rows@.push(row));
                    assert(after.len() == before.len());
                    assert(row_text(after.last()) =~= row_text(before.last()).push(b));
                    assert(text.subrange(0, i + 1) =~= text.subrange(0, i as int).push(b));
                    if after.len() > 1 {
                        assert(after.drop_last() =~= before.drop_last());
                        assert(map_text(after) =~= (map_text(before.drop_last()) + seq![NEWLINE]
                            + row_text(before.last())).push(b));
                    }
                    assert(map_text(after) =~= text.subrange(0, i + 1));
                }
            }
            i += 1;
        }
        assert(text.subrange(0, i as int) =~= text);
        if row.len() > 0 || rows.len() == 0 {
            rows.push(row);
            proof {
                let all = cells_of(rows@);
                if all.len() > 1 {
                    assert(text.last() == byte_of(all.last().last()));
                } else {
                    assert(all[0].len() > 0);
                    assert(text.last() == byte_of(all[0].last()));
                }
            }
        } else {
            proof {
                let open = cells_of(rows@.push(row));
                assert(open.drop_last() =~= cells_of(rows@));
                assert(row_text(open.last()) =~= Seq::<u8>::empty());
                assert(map_text(open) =~= map_text(cells_of(rows@)).push(NEWLINE));
                assert(text.drop_last() =~= map_text(cells_of(rows@)));
            }
        }
        let height = rows.len();
        let width = rows[0].len();
        ValleyMap { height, width, rows }
    }

    /// Whether column `x`, row `y` is free at time `t`.
    pub fn is_open(&self, x: usize, y: usize, t: usize) -> (open: bool)
        requires
            self.wf(),
            x < self.width,
            y < self.height,
        ensures
            open == self.spec_is_open(x as int, y as int, t as int),
    {
        if self.rows[y][x] == Cell::Wall {
            return false;
        }
        let y_at_zero = position_upwind(y, t, self.height - 2);
        if self.rows[y_at_zero][x] == Cell::South {
            return false;
        }
        let y_at_zero = position_downwind(y, t, self.height - 2);
        if self.rows[y_at_zero][x] == Cell::North {
            return false;
        }
        let x_at_zero = position_upwind(x, t, self.width - 2);
        if self.rows[y][x_at_zero] == Cell::East {
            return false;
        }
        let x_at_zero = position_downwind(x, t, self.width - 2);
        if self.rows[y][x_at_zero] == Cell::West {
            return false;
        }
        true
    }

    /// The places one can be at time `t` after being at `x`, `y`.
    pub fn open_neighbours(&self, x: usize, y: usize, t: usize) -> (result: Vec<(usize, usize)>)
        requires
            self.wf(),
            x < self.width,
            y < self.height,
        ensures
            result@ == self.spec_open_neighbours(x as int, y as int, t as int),
    {
        let mut result: Vec<(usize, usize)> = Vec::new();
        if y > 0 && self.is_open(x, y - 1, t) {
            result.push((x, y - 1));
        }
        if y < self.height - 1 && self.is_open(x, y + 1, t) {
            result.push((x, y + 1));
        }
        if x > 0 && self.is_open(x - 1, y, t) {
            result.push((x - 1, y));
        }
        if x < self.width - 1 && self.is_open(x + 1, y, t) {
            result.push((x + 1, y));
        }
        if self.is_open(x, y, t) {
            result.push((x, y));
        }
        assert(result@ =~= self.spec_open_neighbours(x as int, y as int, t as int));
        result
    }
}

/// The places one can be at time `t`, having been at `start` at
/// `start_time` and having moved to a free neighbouring place, or waited
/// at a free place, every step since.
pub open spec fn places_at(map: &ValleyMap, start: (usize, usize), start_time: int, t: int) -> Set<
    (usize, usize),
>
    decreases t - start_time,
{
    if t < start_time {
        Set::empty()
    } else if t == start_time {
        set![start]
    } else {
        let before = places_at(map, start, start_time, t - 1);
        Set::new(
            |p: (usize, usize)|
                exists|q: (usize, usize)|
                    #[trigger] before.contains(q) && q.0 < map.width && q.1 < map.height
                        && map.spec_open_neighbours(q.0 as int, q.1 as int, t).contains(p),
        )
    }
}

/// Whether the layer is a grid of the given size.
pub open spec fn is_layer(layer: Seq<Vec<bool>>, width: int, height: int) -> bool {
    &&& layer.len() == height
    &&& forall|r: int| 0 <= r < height ==> (#[trigger] layer[r])@.len() == width
}

/// A grid of the given size on which nothing is marked.
pub fn blank_layer(width: usize, height: usize) -> (layer: Vec<Vec<bool>>)
    ensures
        is_layer(layer@, width as int, height as int),
        forall|r: int, c: int| 0 <= r < height && 0 <= c < width ==> !#[trigger] layer@[r]@[c],
{
    let mut layer: Vec<Vec<bool>> = Vec::new();
    let mut r: usize = 0;
    while r < height
        invariant
            r <= height,
            is_layer(layer@, width as int, r as int),
            forall|i: int, c: int| 0 <= i < r && 0 <= c < width ==> !#[trigger] layer@[i]@[c],
        decreases height - r,
    {
        let mut row: Vec<bool> = Vec::new();
        let mut c: usize = 0;
        while c < width
            invariant
                c <= width,
                row@.len() == c,
                forall|i: int| 0 <= i < c ==> !#[trigger] row@[i],
            decreases width - c,
        {
            row.push(false);
            c += 1;
        }
        layer.push(row);
        r += 1;
    }
    layer
}

/// Every place that `spec_open_neighbours` lists lies on the map.
pub proof fn lemma_neighbours_on_map(map: &ValleyMap, x: int, y: int, t: int, k: int)
    requires
        map.wf(),
        0 <= x < map.width,
        0 <= y < map.height,
        0 <= k < map.spec_open_neighbours(x, y, t).len(),
    ensures
        map.spec_open_neighbours(x, y, t)[k].0 < map.width,
        map.spec_open_neighbours(x, y, t)[k].1 < map.height,
{
}

/// Marks on `next` the places one can be at time `t` after being at `x`, `y`.
pub fn mark_neighbours(map: &ValleyMap, next: &mut Vec<Vec<bool>>, x: usize, y: usize, t: usize)
    requires
        map.wf(),
        x < map.width,
        y < map.height,
        is_layer(old(next)@, map.width as int, map.height as int),
    ensures
        is_layer(final(next)@, map.width as int, map.height as int),
        forall|r: int, c: int|
            0 <= r < map.height && 0 <= c < map.width ==> #[trigger] final(next)@[r]@[c] == (old(
                next,
            )@[r]@[c] || map.spec_open_neighbours(x as int, y as int, t as int).contains(
                (c as usize, r as usize),
            )),
{
    let places = map.open_neighbours(x, y, t);
    let ghost listed = map.spec_open_neighbours(x as int, y as int, t as int);
    let mut k: usize = 0;
    while k < places.len()
        invariant
            k <= places@.len(),
            places@ == listed,
            listed == map.spec_open_neighbours(x as int, y as int, t as int),
            map.wf(),
            x < map.width,
            y < map.height,
            is_layer(next@, map.width as int, map.height as int),
            forall|r: int, c: int|
                0 <= r < map.height && 0 <= c < map.width ==> #[trigger] next@[r]@[c] == (old(
                    next,
                )@[r]@[c] || listed.subrange(0, k as int).contains((c as usize, r as usize))),
        decreases places@.len() - k,
    {
        let (nx, ny) = places[k];
        proof {
            lemma_neighbours_on_map(map, x as int, y as int, t as int, k as int);
        }
        let ghost before = next@;
        next[ny][nx] = true;
        proof {
            let shorter = listed.subrange(0, k as int);
            let longer = listed.subrange(0, k + 1);
            assert(longer =~= shorter.push((nx, ny)));
            assert forall|r: int, c: int|
                0 <= r < map.height && 0 <= c < map.width implies #[trigger] next@[r]@[c] == (old(
                next,
            )@[r]@[c] || longer.contains((c as usize, r as usize))) by {
                assert(before[r]@[c] == (old(next)@[r]@[c] || shorter.contains(
                    (c as usize, r as usize),
                )));
                if shorter.contains((c as usize, r as usize)) {
                    let i = choose|i: int|
                        0 <= i < shorter.len() && shorter[i] == (c as usize, r as usize);
                    assert(longer[i] == (c as usize, r as usize));
                }
                if r == ny && c == nx {
                    assert(longer[k as int] == (c as usize, r as usize));
                }
                if longer.contains((c as usize, r as usize)) && !(r == ny && c == nx) {
                    let i = choose|i: int|
                        0 <= i < longer.len() && longer[i] == (c as usize, r as usize);
                    assert(shorter[i] == (c as usize, r as usize));
                }
            }
        }
        k += 1;
    }
    assert(listed.subrange(0, k as int) =~= listed);
}

/// Whether anything is marked on the layer.
pub fn any_marked(layer: &Vec<Vec<bool>>, width: usize, height: usize) -> (any: bool)
    requires
        is_layer(layer@, width as int, height as int),
    ensures
        any == exists|r: int, c: int| 0 <= r < height && 0 <= c < width && #[trigger] layer@[r]@[c],
{
    let mut r: usize = 0;
    while r < height
        invariant
            r <= height,
            is_layer(layer@, width as int, height as int),
            forall|i: int, c: int| 0 <= i < r && 0 <= c < width ==> !#[trigger] layer@[i]@[c],
        decreases height - r,
    {
        let mut c: usize = 0;
        while c < width
            invariant
                c <= width,
                r < height,
                is_layer(layer@, width as int, height as int),
                forall|i: int| 0 <= i < c ==> !#[trigger] layer@[r as int]@[i],
            decreases width - c,
        {
            if layer[r][c] {
                return true;
            }
            c += 1;
        }
        r += 1;
    }
    false
}

/// The places one can be at time `t`, given the places one can be at the
/// time before.
pub fn next_layer(map: &ValleyMap, frontier: &Vec<Vec<bool>>, t: usize) -> (next: Vec<Vec<bool>>)
    requires
        map.wf(),
        is_layer(frontier@, map.width as int, map.height as int),
    ensures
        is_layer(next@, map.width as int, map.height as int),
        forall|r: int, c: int|
            0 <= r < map.height && 0 <= c < map.width ==> (#[trigger] next@[r]@[c] <==> exists|
                px: int,
                py: int,
            |
                0 <= px < map.width && 0 <= py < map.height && #[trigger] frontier@[py]@[px]
                    && map.spec_open_neighbours(px, py, t as int).contains(
                    (c as usize, r as usize),
                )),
{
    let mut next = blank_layer(map.width, map.height);
    let mut y: usize = 0;
    assert(next@.len() == map.height);
    while y < map.height
        invariant
            y <= map.height,
            map.wf(),
            is_layer(frontier@, map.width as int, map.height as int),
            is_layer(next@, map.width as int, map.height as int),
            forall|r: int, c: int|
                0 <= r < map.height && 0 <= c < map.width ==> (#[trigger] next@[r]@[c] <==> exists|
                    px: int,
                    py: int,
                |
                    0 <= px < map.width && 0 <= py < y && #[trigger] frontier@[py]@[px]
                        && map.spec_open_neighbours(px, py, t as int).contains(
                        (c as usize, r as usize),
                    )),
        decreases map.height - y,
    {
        let mut x: usize = 0;
        while x < map.width
            invariant
                x <= map.width,
                y < map.height,
                map.wf(),
                is_layer(frontier@, map.width as int, map.height as int),
                is_layer(next@, map.width as int, map.height as int),
                forall|r: int, c: int|
                    0 <= r < map.height && 0 <= c < map.width ==> (#[trigger] next@[r]@[c]
                        <==> exists|px: int, py: int|
                        0 <= px < map.width && 0 <= py <= y && (py < y || px < x)
                            && #[trigger] frontier@[py]@[px] && map.spec_open_neighbours(
                            px,
                            py,
                            t as int,
                        ).contains((c as usize, r as usize))),
            decreases map.width - x,
        {
            let ghost before = next@;
            if frontier[y][x] {
                mark_neighbours(map, &mut next, x, y, t);
            }
            proof {
                assert forall|r: int, c: int|
                    0 <= r < map.height && 0 <= c < map.width implies (#[trigger] next@[r]@[c]
                    <==> exists|px: int, py: int|
                    0 <= px < map.width && 0 <= py <= y && (py < y || px < x + 1)
                        && #[trigger] frontier@[py]@[px] && map.spec_open_neighbours(
                        px,
                        py,
                        t as int,
                    ).contains((c as usize, r as usize))) by {
                    let here = frontier@[y as int]@[x as int] && map.spec_open_neighbours(
                        x as int,
                        y as int,
                        t as int,
                    ).contains((c as usize, r as usize));
                    assert(next@[r]@[c] == (before[r]@[c] || here));
                    if before[r]@[c] {
                        let (px, py) = choose|px: int, py: int|
                            0 <= px < map.width && 0 <= py <= y && (py < y || px < x)
                                && #[trigger] frontier@[py]@[px] && map.spec_open_neighbours(
                                px,
                                py,
                                t as int,
                            ).contains((c as usize, r as usize));
                        assert(py < y || px < x + 1);
                    }
                }
            }
            x += 1;
        }
        y += 1;
    }
    next
}

/// The first time after `start_time` at which one can be at `end`, having
/// been at `start` at `start_time`; `None` if there is no such time.
pub fn find_time_at_reaching(
    start: (usize, usize),
    end: (usize, usize),
    start_time: usize,
    map: &ValleyMap,
) -> (found: Option<usize>)
    requires
        map.wf(),
        start.0 < map.width,
        start.1 < map.height,
    ensures
        match found {
            Some(t) => {
                &&& t > start_time
                &&& places_at(map, start, start_time as int, t as int).contains(end)
                &&& forall|u: int|
                    start_time < u < t ==> !places_at(map, start, start_time as int, u).contains(
                        end,
                    )
            },
            None => forall|u: int|
                start_time < u <= usize::MAX ==> !places_at(map, start, start_time as int, u).contains(
                    end,
                ),
        },
{
    let mut frontier = blank_layer(map.width, map.height);
    frontier[start.1][start.0] = true;
    let mut t = start_time;
    while t < usize::MAX
        invariant
            start_time <= t,
            map.wf(),
            is_layer(frontier@, map.width as int, map.height as int),
            marks(frontier@, map, places_at(map, start, start_time as int, t as int)),
            forall|u: int|
                start_time < u <= t ==> !places_at(map, start, start_time as int, u).contains(end),
        decreases usize::MAX - t,
    {
        let next = next_layer(map, &frontier, t + 1);
        proof {
            lemma_layer_step(map, start, start_time as int, frontier@, next@, t + 1);
        }
        let reached = end.0 < map.width && end.1 < map.height && next[end.1][end.0];
        if reached {
            return Some(t + 1);
        }
        if !any_marked(&next, map.width, map.height) {
            assert forall|u: int| t + 1 < u implies !places_at(
                map,
                start,
                start_time as int,
                u,
            ).contains(end) by {
                lemma_nowhere_to_go(map, start, start_time as int, t + 1, u);
            }
            return None;
        }
        frontier = next;
        t += 1;
    }
    None
}

/// The layer marks the places of the set that lie on the map, and the set
/// holds no other places.
pub open spec fn marks(layer: Seq<Vec<bool>>, map: &ValleyMap, places: Set<(usize, usize)>) -> bool {
    forall|p: (usize, usize)| #[trigger]
        places.contains(p) <==> p.0 < map.width && p.1 < map.height && layer[p.1 as int]@[p.0 as int]
}

/// A layer built from the layer before marks the places one can be at.
pub proof fn lemma_layer_step(
    map: &ValleyMap,
    start: (usize, usize),
    start_time: int,
    frontier: Seq<Vec<bool>>,
    next: Seq<Vec<bool>>,
    t: int,
)
    requires
        map.wf(),
        start_time < t,
        is_layer(frontier, map.width as int, map.height as int),
        is_layer(next, map.width as int, map.height as int),
        marks(frontier, map, places_at(map, start, start_time, t - 1)),
        forall|r: int, c: int|
            0 <= r < map.height && 0 <= c < map.width ==> (#[trigger] next[r]@[c] <==> exists|
                px: int,
                py: int,
            |
                0 <= px < map.width && 0 <= py < map.height && #[trigger] frontier[py]@[px]
                    && map.spec_open_neighbours(px, py, t).contains((c as usize, r as usize))),
    ensures
        marks(next, map, places_at(map, start, start_time, t)),
{
    let before = places_at(map, start, start_time, t - 1);
    let now = places_at(map, start, start_time, t);
    assert forall|p: (usize, usize)| #[trigger]
        now.contains(p) <==> p.0 < map.width && p.1 < map.height && next[p.1 as int]@[p.0 as int] by {
        if now.contains(p) {
            let q = choose|q: (usize, usize)|
                #[trigger] before.contains(q) && q.0 < map.width && q.1 < map.height
                    && map.spec_open_neighbours(q.0 as int, q.1 as int, t).contains(p);
            let listed = map.spec_open_neighbours(q.0 as int, q.1 as int, t);
            let k = choose|k: int| 0 <= k < listed.len() && listed[k] == p;
            lemma_neighbours_on_map(map, q.0 as int, q.1 as int, t, k);
            assert(frontier[q.1 as int]@[q.0 as int]);
        }
        if p.0 < map.width && p.1 < map.height && next[p.1 as int]@[p.0 as int] {
            let (px, py) = choose|px: int, py: int|
                0 <= px < map.width && 0 <= py < map.height && #[trigger] frontier[py]@[px]
                    && map.spec_open_neighbours(px, py, t).contains(p);
            let q = (px as usize, py as usize);
            assert(before.contains(q));
        }
    }
}

/// Once one can be nowhere, one can be nowhere for ever after.
pub proof fn lemma_nowhere_to_go(
    map: &ValleyMap,
    start: (usize, usize),
    start_time: int,
    t: int,
    u: int,
)
    requires
        start_time < t <= u,
        forall|p: (usize, usize)|
            p.0 < map.width && p.1 < map.height ==> !#[trigger] places_at(
                map,
                start,
                start_time,
                t,
            ).contains(p),
    ensures
        forall|p: (usize, usize)| t < u ==> !#[trigger] places_at(map, start, start_time, u).contains(p),
        forall|p: (usize, usize)|
            p.0 < map.width && p.1 < map.height ==> !#[trigger] places_at(
                map,
                start,
                start_time,
                u,
            ).contains(p),
    decreases u - t,
{
    if u > t {
        lemma_nowhere_to_go(map, start, start_time, t, u - 1);
        let before = places_at(map, start, start_time, u - 1);
        let now = places_at(map, start, start_time, u);
        assert forall|p: (usize, usize)| !#[trigger] now.contains(p) by {
            if now.contains(p) {
                let q = choose|q: (usize, usize)|
                    #[trigger] before.contains(q) && q.0 < map.width && q.1 < map.height
                        && map.spec_open_neighbours(q.0 as int, q.1 as int, u).contains(p);
                assert(!before.contains(q));
            }
        }
    }
}

} // verus!
