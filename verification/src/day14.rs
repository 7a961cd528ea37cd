//! Sand that trickles into a cave of rock, one unit after another, from a
//! source in its roof.

use vstd::prelude::*;
use crate::text::{copy_part, find_byte, next_byte, parse_usize, unsigned_value};

verus! {

/// The column of the source of the sand.
pub const SOURCE: usize = 500;

/// A cave as deep as its lowest rock, with one more row below that. Of each
/// row it holds the places that sand can reach: those no farther from the
/// column of the source than the row after the last.
pub struct Cave {
    /// Whether rock or sand fills the place, by row and then by the
    /// distance of its column from the first column that is held.
    pub cells: Vec<Vec<bool>>,
    /// The row of the lowest rock.
    pub depth: usize,
}

/// The filled places of a cave, row by row.
pub open spec fn grid_of(cells: Seq<Vec<bool>>) -> Seq<Seq<bool>> {
    Seq::new(cells.len(), |y: int| cells[y]@)
}

/// Whether the place in column `p.0` of row `p.1` lies in the grid.
pub open spec fn within(g: Seq<Seq<bool>>, p: (int, int)) -> bool {
    0 <= p.1 < g.len() && 0 <= p.0 < g[p.1].len()
}

/// Whether the place lies in the grid and is filled.
pub open spec fn filled(g: Seq<Seq<bool>>, p: (int, int)) -> bool {
    within(g, p) && g[p.1][p.0]
}

/// Whether the grid has the rows and columns of a cave of the given depth.
pub open spec fn shaped(g: Seq<Seq<bool>>, depth: int) -> bool {
    g.len() == depth + 2 && forall|y: int| 0 <= y < g.len() ==> (#[trigger] g[y]).len() == 2 * depth + 5
}

/// Where a unit of sand at `p` goes next: straight down if that place is
/// free, else down and towards the first column, else down and away from
/// it; nowhere if all three are filled.
pub open spec fn step(g: Seq<Seq<bool>>, p: (int, int)) -> Option<(int, int)> {
    if !filled(g, (p.0, p.1 + 1)) {
        Some((p.0, p.1 + 1))
    } else if !filled(g, (p.0 - 1, p.1 + 1)) {
        Some((p.0 - 1, p.1 + 1))
    } else if !filled(g, (p.0 + 1, p.1 + 1)) {
        Some((p.0 + 1, p.1 + 1))
    } else {
        None
    }
}

/// Where a unit of sand at `p` stops: where it can go nowhere, or in the
/// last row of the grid.
pub open spec fn fall(g: Seq<Seq<bool>>, p: (int, int)) -> (int, int)
    decreases g.len() - p.1,
{
    if p.1 + 1 >= g.len() {
        p
    } else {
        match step(g, p) {
            Some(q) => fall(g, q),
            None => p,
        }
    }
}

/// The grid with the place `p` filled.
pub open spec fn put(g: Seq<Seq<bool>>, p: (int, int)) -> Seq<Seq<bool>> {
    if within(g, p) {
        g.update(p.1, g[p.1].update(p.0, true))
    } else {
        g
    }
}

/// The grid after `n` units of sand have fallen from `source`, each
/// filling the place where it stopped.
pub open spec fn poured(g: Seq<Seq<bool>>, source: (int, int), n: nat) -> Seq<Seq<bool>>
    decreases n,
{
    if n == 0 {
        g
    } else {
        let before = poured(g, source, (n - 1) as nat);
        put(before, fall(before, source))
    }
}

impl Cave {
    /// The filled places, row by row.
    pub open spec fn grid(&self) -> Seq<Seq<bool>> {
        grid_of(self.cells@)
    }

    /// The number of places held of each row.
    pub open spec fn spec_width(&self) -> int {
        2 * self.depth + 5
    }

    /// The place of the source: in the middle of the first row.
    pub open spec fn source(&self) -> (int, int) {
        (self.depth + 2, 0)
    }

    /// The column that is held at the distance `c` from the first.
    pub open spec fn column(&self, c: int) -> int {
        c + SOURCE - self.depth - 2
    }

    /// There is one row more than the depth says, and all rows are as wide
    /// as the cave.
    pub open spec fn wf(&self) -> bool {
        &&& self.depth < usize::MAX / 2 - 2
        &&& self.cells@.len() == self.depth + 2
        &&& forall|y: int| 0 <= y < self.cells@.len() ==> (#[trigger] self.cells@[y])@.len() == 2
            * self.depth + 5
    }

    /// An empty cave of the given depth.
    pub fn new(depth: usize) -> (cave: Cave)
        requires
            depth < usize::MAX / 2 - 2,
        ensures
            cave.wf(),
            cave.depth == depth,
            forall|p: (int, int)| !filled(cave.grid(), p),
    {
        let width = 2 * depth + 5;
        let mut cells: Vec<Vec<bool>> = Vec::new();
        let mut y: usize = 0;
        while y < depth + 2
            invariant
                y <= depth + 2,
                depth < usize::MAX / 2 - 2,
                width == 2 * depth + 5,
                cells@.len() == y,
                forall|k: int| 0 <= k < y ==> (#[trigger] cells@[k])@.len() == width,
                forall|k: int, c: int| 0 <= k < y && 0 <= c < width ==> !#[trigger] cells@[k]@[c],
            decreases depth + 2 - y,
        {
            let mut row: Vec<bool> = Vec::new();
            let mut c: usize = 0;
            while c < width
                invariant
                    c <= width,
                    row@.len() == c,
                    forall|k: int| 0 <= k < c ==> !#[trigger] row@[k],
                decreases width - c,
            {
                row.push(false);
                c += 1;
            }
            cells.push(row);
            y += 1;
        }
        let cave = Cave { cells, depth };
        assert forall|p: (int, int)| !filled(cave.grid(), p) by {
            if within(cave.grid(), p) {
                assert(!cave.cells@[p.1]@[p.0]);
            }
        }
        cave
    }

    /// Fills the place in column `x` of row `y` with rock, if the cave
    /// holds it.
    pub fn add_rock(&mut self, x: usize, y: usize)
        requires
            old(self).wf(),
        ensures
            final(self).wf(),
            final(self).depth == old(self).depth,
            forall|c: int, row: int|
                within(old(self).grid(), (c, row)) ==> #[trigger] filled(final(self).grid(), (c, row))
                    == (filled(old(self).grid(), (c, row)) || (old(self).column(c) == x && row == y)),
    {
        let ghost before = self.grid();
        let reach = self.depth + 2;
        let held = if x >= 500 {
            x - 500 <= reach
        } else {
            500 - x <= reach
        };
        if y < self.depth + 2 && held {
            let c = if x >= 500 {
                reach + (x - 500)
            } else {
                reach - (500 - x)
            };
            let mut row = self.cells.remove(y);
            row.set(c, true);
            self.cells.insert(y, row);
            proof {
                assert(self.cells@.len() == self.depth + 2);
                assert forall|k: int| 0 <= k < self.cells@.len() implies (#[trigger] self.cells@[k])@.len()
                    == 2 * self.depth + 5 by {
                    if k != y {
                        assert(self.cells@[k] == old(self).cells@[k]);
                    }
                }
                assert forall|cc: int, r: int| within(before, (cc, r)) implies #[trigger] filled(
                    self.grid(),
                    (cc, r),
                ) == (filled(before, (cc, r)) || (old(self).column(cc) == x && r == y)) by {
                    if r != y {
                        assert(self.cells@[r] == old(self).cells@[r]);
                    }
                }
            }
        } else {
            proof {
                assert forall|cc: int, r: int| within(before, (cc, r)) implies !(old(self).column(cc)
                    == x && r == y) by {}
            }
        }
    }
}

/// Whether `v` lies between `a` and `b`, whichever of them is the smaller.
pub open spec fn between(a: int, b: int, v: int) -> bool {
    (a <= v <= b) || (b <= v <= a)
}

/// Whether the place in column `x` of row `y` lies on the line of rock
/// from `from` to `to`; for a line that is neither level nor upright these
/// are the places of the rectangle of which the two are corners.
pub open spec fn on_line(from: (usize, usize), to: (usize, usize), x: int, y: int) -> bool {
    between(from.0 as int, to.0 as int, x) && between(from.1 as int, to.1 as int, y)
}

/// Whether the place lies on one of the lines that join each point of a
/// path to the next.
pub open spec fn on_paths(paths: Seq<Vec<(usize, usize)>>, x: int, y: int) -> bool {
    exists|i: int, j: int|
        0 <= i < paths.len() && 0 <= j < paths[i]@.len() - 1 && #[trigger] on_line(
            paths[i]@[j],
            paths[i]@[j + 1],
            x,
            y,
        )
}

/// Fills the places of the row from `lo` to `hi`.
pub fn fill_row(row: &mut Vec<bool>, lo: usize, hi: usize)
    requires
        hi < old(row)@.len(),
    ensures
        final(row)@.len() == old(row)@.len(),
        forall|c: int|
            0 <= c < old(row)@.len() ==> #[trigger] final(row)@[c] == (old(row)@[c] || (lo <= c
                && c <= hi)),
{
    let ghost before = row@;
    let len = row.len();
    let mut c: usize = lo;
    while c <= hi
        invariant
            hi < len,
            row@.len() == len,
            before.len() == len,
            lo <= c,
            c <= hi + 1 || c == lo,
            forall|k: int| 0 <= k < len ==> #[trigger] row@[k] == (before[k] || (lo <= k && k < c)),
        decreases hi + 1 - c,
    {
        row.set(c, true);
        c += 1;
    }
}

impl Cave {
    /// Fills with rock the places of the line from `from` to `to` that the
    /// cave holds.
    pub fn draw_line(&mut self, from: (usize, usize), to: (usize, usize))
        requires
            old(self).wf(),
        ensures
            final(self).wf(),
            final(self).depth == old(self).depth,
            forall|c: int, y: int|
                within(old(self).grid(), (c, y)) ==> #[trigger] filled(final(self).grid(), (c, y))
                    == (filled(old(self).grid(), (c, y)) || on_line(
                    from,
                    to,
                    old(self).column(c),
                    y,
                )),
    {
        let ghost before = self.grid();
        let reach = self.depth + 2;
        let width = 2 * self.depth + 5;
        proof {
            assert forall|y: int| 0 <= y < before.len() implies (#[trigger] before[y]).len() == 2
                * self.depth + 5 by {
                assert(self.cells@[y]@.len() == 2 * self.depth + 5);
            }
        }
        let (x0, x1) = if from.0 <= to.0 {
            (from.0, to.0)
        } else {
            (to.0, from.0)
        };
        let (y0, y1) = if from.1 <= to.1 {
            (from.1, to.1)
        } else {
            (to.1, from.1)
        };
        let first: i128 = x0 as i128 + reach as i128 - 500;
        let last: i128 = x1 as i128 + reach as i128 - 500;
        if last < 0 || first >= width as i128 {
            proof {
                assert forall|c: int, y: int| within(before, (c, y)) implies !on_line(
                    from,
                    to,
                    self.column(c),
                    y,
                ) by {}
            }
            return ;
        }
        let lo: usize = if first < 0 {
            0
        } else {
            first as usize
        };
        let hi: usize = if last >= width as i128 {
            width - 1
        } else {
            last as usize
        };
        let mut y: usize = 0;
        while y < self.depth + 2
            invariant
                y <= self.depth + 2,
                self.wf(),
                self.depth == old(self).depth,
                before == old(self).grid(),
                shaped(before, self.depth as int),
                hi < 2 * self.depth + 5,
                forall|c: int, r: int|
                    within(before, (c, r)) ==> #[trigger] filled(self.grid(), (c, r)) == (filled(
                        before,
                        (c, r),
                    ) || (r < y && y0 <= r <= y1 && lo <= c <= hi)),
            decreases self.depth + 2 - y,
        {
            if y0 <= y && y <= y1 {
                let ghost now = self.grid();
                let ghost cells = self.cells@;
                let mut row = self.cells.remove(y);
                fill_row(&mut row, lo, hi);
                self.cells.insert(y, row);
                proof {
                    assert forall|k: int| 0 <= k < self.cells@.len() implies (
                    #[trigger] self.cells@[k])@.len() == 2 * self.depth + 5 by {
                        if k != y {
                            assert(self.cells@[k] == cells[k]);
                        }
                    }
                    assert forall|c: int, r: int| within(before, (c, r)) implies #[trigger] filled(
                        self.grid(),
                        (c, r),
                    ) == (filled(before, (c, r)) || (r < y + 1 && y0 <= r <= y1 && lo <= c <= hi)) by {
                        assert(filled(now, (c, r)) == (filled(before, (c, r)) || (r < y && y0 <= r
                            <= y1 && lo <= c <= hi)));
                        if r != y {
                            assert(self.cells@[r] == cells[r]);
                        } else {
                            assert(self.cells@[r]@[c] == (cells[r]@[c] || (lo <= c && c <= hi)));
                        }
                    }
                }
            }
            y += 1;
        }
    }
}

/// Whether `d` is the row of the lowest point of the paths, or 0 if they
/// have no point.
pub open spec fn is_deepest(paths: Seq<Vec<(usize, usize)>>, d: int) -> bool {
    &&& forall|i: int, j: int|
        0 <= i < paths.len() && 0 <= j < paths[i]@.len() ==> (#[trigger] paths[i]@[j]).1 <= d
    &&& d == 0 || exists|i: int, j: int|
        0 <= i < paths.len() && 0 <= j < paths[i]@.len() && (#[trigger] paths[i]@[j]).1 == d
}

/// The row of the lowest point of the paths; 0 if they have no point.
pub fn lowest_row(paths: &Vec<Vec<(usize, usize)>>) -> (d: usize)
    ensures
        is_deepest(paths@, d as int),
{
    let mut d: usize = 0;
    let ghost mut at = (0int, 0int);
    let mut i: usize = 0;
    while i < paths.len()
        invariant
            i <= paths@.len(),
            forall|k: int, j: int|
                0 <= k < i && 0 <= j < paths@[k]@.len() ==> (#[trigger] paths@[k]@[j]).1 <= d,
            d == 0 || (0 <= at.0 < i && 0 <= at.1 < paths@[at.0]@.len() && paths@[at.0]@[at.1].1
                == d),
        decreases paths@.len() - i,
    {
        let mut j: usize = 0;
        while j < paths[i].len()
            invariant
                i < paths@.len(),
                j <= paths@[i as int]@.len(),
                forall|k: int, l: int|
                    0 <= k < i && 0 <= l < paths@[k]@.len() ==> (#[trigger] paths@[k]@[l]).1 <= d,
                forall|l: int| 0 <= l < j ==> (#[trigger] paths@[i as int]@[l]).1 <= d,
                d == 0 || (0 <= at.0 <= i && 0 <= at.1 < paths@[at.0]@.len()
                    && paths@[at.0]@[at.1].1 == d),
            decreases paths@[i as int]@.len() - j,
        {
            if paths[i][j].1 > d {
                d = paths[i][j].1;
                proof {
                    at = (i as int, j as int);
                }
            }
            j += 1;
        }
        i += 1;
    }
    proof {
        if d != 0 {
            assert(paths@[at.0]@[at.1].1 == d);
        }
    }
    d
}

/// The cave that the paths of rock make, as deep as their lowest point;
/// `None` if that is too deep for the cave to be held.
pub fn cave_of(paths: &Vec<Vec<(usize, usize)>>) -> (cave: Option<Cave>)
    ensures
        match cave {
            Some(cave) => cave.wf() && is_deepest(paths@, cave.depth as int) && forall|
                c: int,
                y: int,
            |
                within(cave.grid(), (c, y)) ==> #[trigger] filled(cave.grid(), (c, y)) == on_paths(
                    paths@,
                    cave.column(c),
                    y,
                ),
            None => exists|d: int| is_deepest(paths@, d) && d >= usize::MAX / 2 - 2,
        },
{
    let depth = lowest_row(paths);
    if depth >= usize::MAX / 2 - 2 {
        return None;
    }
    let mut cave = Cave::new(depth);
    let ghost shape = cave.grid();
    proof {
        assert forall|y: int| 0 <= y < shape.len() implies (#[trigger] shape[y]).len() == 2 * depth
            + 5 by {
            assert(cave.cells@[y]@.len() == 2 * depth + 5);
        }
    }
    let mut i: usize = 0;
    while i < paths.len()
        invariant
            i <= paths@.len(),
            cave.wf(),
            cave.depth == depth,
            shaped(shape, depth as int),
            forall|c: int, y: int|
                within(shape, (c, y)) ==> #[trigger] filled(cave.grid(), (c, y)) == on_paths(
                    paths@.take(i as int),
                    cave.column(c),
                    y,
                ),
        decreases paths@.len() - i,
    {
        let ghost done = paths@.take(i as int);
        let mut j: usize = 0;
        while paths[i].len() - j > 1
            invariant
                i < paths@.len(),
                j <= paths@[i as int]@.len(),
                done == paths@.take(i as int),
                cave.wf(),
                cave.depth == depth,
                shaped(shape, depth as int),
                forall|c: int, y: int|
                    within(shape, (c, y)) ==> #[trigger] filled(cave.grid(), (c, y)) == (on_paths(
                        done,
                        cave.column(c),
                        y,
                    ) || exists|l: int|
                        0 <= l < j && l < paths@[i as int]@.len() - 1 && #[trigger] on_line(
                            paths@[i as int]@[l],
                            paths@[i as int]@[l + 1],
                            cave.column(c),
                            y,
                        )),
            decreases paths@[i as int]@.len() - j,
        {
            let ghost now = cave.grid();
            let ghost old_cells = cave.cells@;
            cave.draw_line(paths[i][j], paths[i][j + 1]);
            proof {
                let path = paths@[i as int]@;
                assert forall|c: int, y: int| within(shape, (c, y)) implies #[trigger] filled(
                    cave.grid(),
                    (c, y),
                ) == (on_paths(done, cave.column(c), y) || exists|l: int|
                    0 <= l < j + 1 && l < path.len() - 1 && #[trigger] on_line(
                        path[l],
                        path[l + 1],
                        cave.column(c),
                        y,
                    )) by {
                    assert(now[y] == old_cells[y]@);
                    assert(within(now, (c, y)));
                    let x = cave.column(c);
                    assert(filled(cave.grid(), (c, y)) == (filled(now, (c, y)) || on_line(
                        path[j as int],
                        path[j + 1],
                        x,
                        y,
                    )));
                    if exists|l: int|
                        0 <= l < j + 1 && l < path.len() - 1 && #[trigger] on_line(
                            path[l],
                            path[l + 1],
                            x,
                            y,
                        ) {
                        let l = choose|l: int|
                            0 <= l < j + 1 && l < path.len() - 1 && #[trigger] on_line(
                                path[l],
                                path[l + 1],
                                x,
                                y,
                            );
                        if l < j {
                            assert(on_line(path[l], path[l + 1], x, y));
                        }
                    }
                }
            }
            j += 1;
        }
        proof {
            let path = paths@[i as int]@;
            let more = paths@.take(i + 1);
            assert forall|c: int, y: int| within(shape, (c, y)) implies #[trigger] filled(
                cave.grid(),
                (c, y),
            ) == on_paths(more, cave.column(c), y) by {
                let x = cave.column(c);
                if on_paths(more, x, y) {
                    let (k, l) = choose|k: int, l: int|
                        0 <= k < more.len() && 0 <= l < more[k]@.len() - 1 && #[trigger] on_line(
                            more[k]@[l],
                            more[k]@[l + 1],
                            x,
                            y,
                        );
                    if k < i {
                        assert(done[k] == more[k]);
                        assert(on_line(done[k]@[l], done[k]@[l + 1], x, y));
                        assert(on_paths(done, x, y));
                    } else {
                        assert(on_line(path[l], path[l + 1], x, y));
                    }
                }
                if on_paths(done, x, y) {
                    let (k, l) = choose|k: int, l: int|
                        0 <= k < done.len() && 0 <= l < done[k]@.len() - 1 && #[trigger] on_line(
                            done[k]@[l],
                            done[k]@[l + 1],
                            x,
                            y,
                        );
                    assert(done[k] == more[k]);
                    assert(on_line(more[k]@[l], more[k]@[l + 1], x, y));
                }
                if exists|l: int|
                    0 <= l < j && l < path.len() - 1 && #[trigger] on_line(
                        path[l],
                        path[l + 1],
                        x,
                        y,
                    ) {
                    let l = choose|l: int|
                        0 <= l < j && l < path.len() - 1 && #[trigger] on_line(
                            path[l],
                            path[l + 1],
                            x,
                            y,
                        );
                    assert(more[i as int] == paths@[i as int]);
                    assert(on_line(more[i as int]@[l], more[i as int]@[l + 1], x, y));
                }
            }
        }
        i += 1;
    }
    proof {
        assert(paths@.take(i as int) =~= paths@);
    }
    Some(cave)
}

/// How many of the first `n` places of the row are free.
pub open spec fn free_in_row(row: Seq<bool>, n: int) -> nat
    decreases n,
{
    if n <= 0 {
        0
    } else {
        free_in_row(row, n - 1) + if row[n - 1] {
            0nat
        } else {
            1nat
        }
    }
}

/// How many places of the first `rows` rows are free.
pub open spec fn free_in(g: Seq<Seq<bool>>, rows: int) -> nat
    decreases rows,
{
    if rows <= 0 {
        0
    } else {
        free_in(g, rows - 1) + free_in_row(g[rows - 1], g[rows - 1].len() as int)
    }
}

/// A row in which a free place is filled has one free place less.
pub proof fn lemma_row_filled(row: Seq<bool>, c: int, n: int)
    requires
        0 <= c < row.len(),
        0 <= n <= row.len(),
        !row[c],
    ensures
        free_in_row(row, n) == free_in_row(row.update(c, true), n) + if c < n {
            1nat
        } else {
            0nat
        },
        free_in_row(row, n) <= n,
    decreases n,
{
    if n > 0 {
        lemma_row_filled(row, c, n - 1);
    }
}

/// No more places are free than there are.
pub proof fn lemma_free_bound(g: Seq<Seq<bool>>, depth: int, rows: int)
    requires
        shaped(g, depth),
        0 <= depth,
        0 <= rows <= g.len(),
    ensures
        free_in(g, rows) <= rows * (2 * depth + 5),
    decreases rows,
{
    if rows > 0 {
        lemma_free_bound(g, depth, rows - 1);
        lemma_row_bound(g[rows - 1], g[rows - 1].len() as int);
        assert(rows * (2 * depth + 5) == (rows - 1) * (2 * depth + 5) + (2 * depth + 5))
            by (nonlinear_arith);
    }
}

/// No more places of a row are free than it has.
pub proof fn lemma_row_bound(row: Seq<bool>, n: int)
    requires
        0 <= n,
    ensures
        free_in_row(row, n) <= n,
    decreases n,
{
    if n > 0 {
        lemma_row_bound(row, n - 1);
    }
}

/// A grid in which a free place is filled has one free place less.
pub proof fn lemma_put_fills(g: Seq<Seq<bool>>, p: (int, int), rows: int)
    requires
        within(g, p),
        !g[p.1][p.0],
        0 <= rows <= g.len(),
    ensures
        free_in(g, rows) == free_in(put(g, p), rows) + if p.1 < rows {
            1nat
        } else {
            0nat
        },
    decreases rows,
{
    if rows > 0 {
        lemma_put_fills(g, p, rows - 1);
        if p.1 == rows - 1 {
            lemma_row_filled(g[p.1], p.0, g[p.1].len() as int);
        }
    }
}

impl Cave {
    /// Where a unit of sand that falls from the source stops.
    pub fn fall_from_source(&self) -> (rest: (usize, usize))
        requires
            self.wf(),
        ensures
            (rest.0 as int, rest.1 as int) == fall(self.grid(), self.source()),
            within(self.grid(), (rest.0 as int, rest.1 as int)),
            self.depth + 2 - rest.1 <= rest.0 <= self.depth + 2 + rest.1,
            !filled(self.grid(), self.source()) ==> !filled(
                self.grid(),
                (rest.0 as int, rest.1 as int),
            ),
    {
        let ghost g = self.grid();
        let mut c: usize = self.depth + 2;
        let mut y: usize = 0;
        assert(g[0] == self.cells@[0]@);
        loop
            invariant
                self.wf(),
                g == self.grid(),
                y <= self.depth + 1,
                self.depth + 2 - y <= c <= self.depth + 2 + y,
                fall(g, self.source()) == fall(g, (c as int, y as int)),
                !filled(g, self.source()) ==> !filled(g, (c as int, y as int)),
            decreases self.depth + 1 - y,
        {
            assert(g[y as int] == self.cells@[y as int]@);
            if y + 1 >= self.cells.len() {
                return (c, y);
            }
            assert(g[y + 1] == self.cells@[y + 1]@);
            if !self.cells[y + 1][c] {
                y += 1;
            } else if !self.cells[y + 1][c - 1] {
                c -= 1;
                y += 1;
            } else if !self.cells[y + 1][c + 1] {
                c += 1;
                y += 1;
            } else {
                return (c, y);
            }
        }
    }

    /// Fills the place in row `y` at the distance `c` from the first column
    /// that is held.
    pub fn fill(&mut self, c: usize, y: usize)
        requires
            old(self).wf(),
            within(old(self).grid(), (c as int, y as int)),
        ensures
            final(self).wf(),
            final(self).depth == old(self).depth,
            final(self).grid() == put(old(self).grid(), (c as int, y as int)),
    {
        let ghost cells = self.cells@;
        assert(self.grid()[y as int] == cells[y as int]@);
        let mut row = self.cells.remove(y);
        row.set(c, true);
        self.cells.insert(y, row);
        proof {
            assert forall|k: int| 0 <= k < self.cells@.len() implies (#[trigger] self.cells@[k])@.len()
                == 2 * self.depth + 5 by {
                if k != y {
                    assert(self.cells@[k] == cells[k]);
                }
            }
            let after = put(old(self).grid(), (c as int, y as int));
            assert forall|k: int| 0 <= k < after.len() implies self.grid()[k] == #[trigger] after[k] by {
                if k != y {
                    assert(self.cells@[k] == cells[k]);
                } else {
                    assert(self.grid()[k] =~= after[k]);
                }
            }
            assert(self.grid() =~= after);
        }
    }

    /// Lets sand fall from the source until a unit comes to the last row,
    /// below all rock, and returns how many units stopped before. That
    /// last unit fills no place. `None` if a unit stops at the source
    /// before any comes so far: the source is then filled.
    pub fn pour_until_abyss(&mut self) -> (units: Option<u128>)
        requires
            old(self).wf(),
            !filled(old(self).grid(), old(self).source()),
        ensures
            final(self).wf(),
            final(self).depth == old(self).depth,
            match units {
                Some(n) => {
                    &&& final(self).grid() == poured(old(self).grid(), old(self).source(), n as nat)
                    &&& fall(final(self).grid(), old(self).source()).1 == old(self).depth + 1
                    &&& !filled(final(self).grid(), old(self).source())
                    &&& forall|k: nat|
                        k < n ==> (#[trigger] fall(
                            poured(old(self).grid(), old(self).source(), k),
                            old(self).source(),
                        )).1 <= old(self).depth
                },
                None => exists|n: nat|
                    {
                        &&& final(self).grid() == poured(
                            old(self).grid(),
                            old(self).source(),
                            n + 1,
                        )
                        &&& fall(
                            #[trigger] poured(old(self).grid(), old(self).source(), n),
                            old(self).source(),
                        ) == old(self).source()
                        &&& forall|k: nat|
                            k < n ==> (#[trigger] fall(
                                poured(old(self).grid(), old(self).source(), k),
                                old(self).source(),
                            )).1 <= old(self).depth
                    },
            },
    {
        let ghost start = self.grid();
        let ghost source = self.source();
        let mut units: u128 = 0;
        proof {
            self.lemma_room();
        }
        loop
            invariant
                self.wf(),
                self.depth == old(self).depth,
                start == old(self).grid(),
                source == old(self).source(),
                !filled(self.grid(), source),
                self.grid() == poured(start, source, units as nat),
                units + free_in(self.grid(), self.depth + 2) <= u128::MAX,
                forall|k: nat| k < units ==> (#[trigger] fall(poured(start, source, k), source)).1
                    <= self.depth,
            decreases free_in(self.grid(), self.depth + 2),
        {
            let ghost before = self.grid();
            let rest = self.fall_from_source();
            if rest.1 > self.depth {
                return Some(units);
            }
            proof {
                lemma_put_fills(before, (rest.0 as int, rest.1 as int), self.depth + 2);
            }
            self.fill(rest.0, rest.1);
            if rest.1 == 0 {
                proof {
                    assert(fall(poured(start, source, units as nat), source) == source);
                }
                return None;
            }
            units = units + 1;
        }
    }

    /// Lets sand fall from the source until a unit stops at the source, the
    /// last row being the floor, and returns how many units have stopped,
    /// that one among them.
    pub fn pour_until_blocked(&mut self) -> (units: u128)
        requires
            old(self).wf(),
            !filled(old(self).grid(), old(self).source()),
        ensures
            final(self).wf(),
            final(self).depth == old(self).depth,
            units >= 1,
            final(self).grid() == poured(old(self).grid(), old(self).source(), units as nat),
            fall(
                poured(old(self).grid(), old(self).source(), (units - 1) as nat),
                old(self).source(),
            ) == old(self).source(),
            forall|k: nat|
                k < units - 1 ==> #[trigger] fall(
                    poured(old(self).grid(), old(self).source(), k),
                    old(self).source(),
                ) != old(self).source(),
    {
        let ghost start = self.grid();
        let ghost source = self.source();
        let mut units: u128 = 0;
        proof {
            self.lemma_room();
        }
        loop
            invariant
                self.wf(),
                self.depth == old(self).depth,
                start == old(self).grid(),
                source == old(self).source(),
                !filled(self.grid(), source),
                self.grid() == poured(start, source, units as nat),
                units + free_in(self.grid(), self.depth + 2) <= u128::MAX,
                forall|k: nat| k < units ==> #[trigger] fall(poured(start, source, k), source)
                    != source,
            decreases free_in(self.grid(), self.depth + 2),
        {
            let ghost before = self.grid();
            let rest = self.fall_from_source();
            proof {
                lemma_put_fills(before, (rest.0 as int, rest.1 as int), self.depth + 2);
            }
            self.fill(rest.0, rest.1);
            units = units + 1;
            if rest.1 == 0 {
                return units;
            }
            proof {
                assert(self.grid()[0] =~= before[0]);
            }
        }
    }

    /// The free places of a cave can be counted in 128 bits.
    pub proof fn lemma_room(&self)
        requires
            self.wf(),
        ensures
            free_in(self.grid(), self.depth + 2) <= u128::MAX,
    {
        let g = self.grid();
        let d = self.depth as int;
        assert(shaped(g, d)) by {
            assert forall|y: int| 0 <= y < g.len() implies (#[trigger] g[y]).len() == 2 * d + 5 by {
                assert(self.cells@[y]@.len() == 2 * d + 5);
            }
        }
        lemma_free_bound(g, d, d + 2);
        assert((d + 2) * (2 * d + 5) <= 0x8000_0000_0000_0000 * 0x1_0000_0000_0000_0000)
            by (nonlinear_arith)
            requires
                0 <= d + 2 <= 0x8000_0000_0000_0000,
                0 <= 2 * d + 5 <= 0x1_0000_0000_0000_0000,
        ;
    }
}

/// The number that the text stands for, if it stands for one that fits.
pub open spec fn ordinate_of(s: Seq<u8>) -> Option<usize> {
    match unsigned_value(s) {
        Some(v) => if v <= usize::MAX {
            Some(v as usize)
        } else {
            None
        },
        None => None,
    }
}

/// The point that a text of the form `x,y` stands for.
pub open spec fn point_of(s: Seq<u8>) -> Option<(usize, usize)> {
    let comma = next_byte(s, 44, 0);
    if comma >= s.len() {
        None
    } else {
        match (ordinate_of(s.subrange(0, comma)), ordinate_of(s.subrange(comma + 1, s.len() as int))) {
            (Some(x), Some(y)) => Some((x, y)),
            _ => None,
        }
    }
}

/// Whether an arrow with a space on either side begins at place `i`.
pub open spec fn arrow_at(s: Seq<u8>, i: int) -> bool {
    0 <= i && i + 4 <= s.len() && s[i] == 32 && s[i + 1] == 45 && s[i + 2] == 62 && s[i + 3] == 32
}

/// The first place at or after `from` at which an arrow begins, or the
/// length of the text if there is none.
pub open spec fn next_arrow(s: Seq<u8>, from: int) -> int
    decreases s.len() - from,
{
    if from >= s.len() {
        s.len() as int
    } else if arrow_at(s, from) {
        from
    } else {
        next_arrow(s, from + 1)
    }
}

/// The points that the text from `from` on stands for: points with arrows
/// between them.
pub open spec fn path_from(s: Seq<u8>, from: int) -> Option<Seq<(usize, usize)>>
    decreases s.len() - from,
{
    let end = next_arrow(s, from);
    if from < 0 || from > s.len() || end < from {
        None
    } else {
        match point_of(s.subrange(from, end)) {
            None => None,
            Some(p) => if end >= s.len() {
                Some(seq![p])
            } else if end + 4 > s.len() {
                None
            } else {
                match path_from(s, end + 4) {
                    Some(rest) => Some(seq![p] + rest),
                    None => None,
                }
            },
        }
    }
}

/// The first place at or after `from` at which an arrow begins.
pub fn find_arrow(line: &[u8], from: usize) -> (at: usize)
    requires
        from <= line@.len(),
    ensures
        at == next_arrow(line@, from as int),
        from <= at <= line@.len(),
        at < line@.len() ==> arrow_at(line@, at as int),
{
    let mut at = from;
    while at < line.len()
        invariant
            from <= at <= line@.len(),
            next_arrow(line@, from as int) == next_arrow(line@, at as int),
        decreases line@.len() - at,
    {
        if line.len() - at >= 4 && line[at] == 32 && line[at + 1] == 45 && line[at + 2] == 62
            && line[at + 3] == 32 {
            return at;
        }
        at += 1;
    }
    at
}

/// The point that the bytes stand for, if they stand for one.
pub fn read_point(bytes: &[u8]) -> (point: Option<(usize, usize)>)
    ensures
        point == point_of(bytes@),
{
    let comma = find_byte(bytes, 44, 0);
    if comma >= bytes.len() {
        return None;
    }
    let x = parse_usize(copy_part(bytes, 0, comma).as_slice());
    let y = parse_usize(copy_part(bytes, comma + 1, bytes.len()).as_slice());
    match (x, y) {
        (Some(x), Some(y)) => Some((x, y)),
        _ => None,
    }
}

/// The path that the bytes of a line stand for, if they stand for one.
pub fn read_path(line: &[u8]) -> (path: Option<Vec<(usize, usize)>>)
    ensures
        match path {
            Some(points) => path_from(line@, 0) == Some(points@),
            None => path_from(line@, 0) is None,
        },
{
    let mut points: Vec<(usize, usize)> = Vec::new();
    let mut from: usize = 0;
    loop
        invariant
            from <= line@.len(),
            path_from(line@, 0) == match path_from(line@, from as int) {
                Some(rest) => Some(points@ + rest),
                None => None,
            },
        decreases line@.len() - from,
    {
        let end = find_arrow(line, from);
        let ghost before = points@;
        match read_point(copy_part(line, from, end).as_slice()) {
            Some(p) => {
                points.push(p);
            },
            None => {
                return None;
            },
        }
        if end >= line.len() {
            proof {
                assert(points@ =~= before + seq![points@.last()]);
            }
            return Some(points);
        }
        proof {
            match path_from(line@, end + 4) {
                Some(rest) => {
                    assert(points@ + rest =~= before + (seq![points@.last()] + rest));
                },
                None => {},
            }
        }
        from = end + 4;
    }
}

} // verus!
