//! The shaft itself: rows of settled rock, and rocks dropped into it.

use vstd::prelude::*;
use vstd::arithmetic::div_mod::{lemma_add_mod_noop_right, lemma_mod_bound};
use crate::day17::shape::{RockShape, rock_shape, shape_at, lemma_covers_bounds};
use crate::day17::model::{
    LEFT, collides, drop_rock, grid_of, jets_used, next_jet, occupied, rest, run, run_jets,
    settled, settled_len, valid_jets,
};

verus! {

/// The rows of settled rock that are still kept, bottom row first, the
/// position in the jet sequence, and the number of rows below the kept ones
/// that were discarded.
#[derive(Debug)]
pub struct Chamber {
    pub rows: Vec<[bool; 7]>,
    pub jet_index: usize,
    pub elided: u64,
}

/// Whether every cell of row `r` is occupied.
pub open spec fn full_row(g: Seq<Seq<bool>>, r: int) -> bool {
    0 <= r < g.len() && forall|c: int| 0 <= c < 7 ==> #[trigger] g[r][c]
}

/// Whether row `r` is full in `after` and was not in `before`.
pub open spec fn became_full(before: Seq<Seq<bool>>, after: Seq<Seq<bool>>, r: int) -> bool {
    full_row(after, r) && !full_row(before, r)
}

/// What one drop reports: the highest row that the rock completed, if it
/// completed any, counted from the floor, and the height of the tower.
#[derive(Debug, Clone, Copy, PartialEq, Eq)]
pub struct Settlement {
    pub completed_row: Option<u64>,
    pub height: u64,
}

impl Chamber {
    /// The kept rows as a grid of cells.
    pub open spec fn grid(&self) -> Seq<Seq<bool>> {
        grid_of(self.rows@)
    }

    /// The height of the tower, discarded rows included.
    pub open spec fn spec_height(&self) -> int {
        self.elided + self.rows@.len()
    }

    /// The height fits the machine's integers.
    pub open spec fn wf(&self) -> bool {
        self.spec_height() <= u64::MAX
    }

    /// There is room above the tower for `n` more rocks.
    pub open spec fn has_room(&self, n: int) -> bool {
        &&& self.rows@.len() + 4 * n + 4 <= usize::MAX
        &&& self.spec_height() + 4 * n <= u64::MAX
    }

    /// The count of the jets used can grow by those of one more drop.
    pub open spec fn can_count(&self) -> bool {
        self.jet_index + self.rows@.len() + 4 <= usize::MAX
    }

    /// The position in the jet sequence of the next jet.
    pub open spec fn jet_position(&self, jets: Seq<u8>) -> int {
        self.jet_index as int % jets.len() as int
    }

    /// The count of the jets used can grow by those of each of `n` more
    /// drops, one by one.
    pub open spec fn can_count_drops(&self, jets: Seq<u8>, n: int) -> bool {
        forall|m: nat|
            m < n ==> self.jet_index + #[trigger] run_jets(
                self.grid(),
                self.jet_position(jets),
                jets,
                0,
                m,
            ) + run(self.grid(), self.jet_position(jets), jets, 0, m).0.len() + 4 <= usize::MAX
    }

    /// An empty shaft.
    pub fn new() -> (chamber: Chamber)
        ensures
            chamber.rows@.len() == 0,
            chamber.jet_index == 0,
            chamber.elided == 0,
    {
        Chamber { rows: Vec::new(), jet_index: 0, elided: 0 }
    }

    /// The height of the tower, discarded rows included.
    pub fn height(&self) -> (h: u64)
        requires
            self.wf(),
        ensures
            h == self.spec_height(),
    {
        self.elided + self.rows.len() as u64
    }

    /// Where a new rock appears: two columns from the left wall, three rows
    /// above the tower.
    pub fn new_rock_coord(&self) -> (coord: (usize, usize))
        requires
            self.rows@.len() + 3 <= usize::MAX,
        ensures
            coord.0 == 2,
            coord.1 == self.rows@.len() + 3,
    {
        (2, self.rows.len() + 3)
    }

    /// Whether a rock with its bottom-left corner at the given place would
    /// share a cell with settled rock.
    pub fn would_collide(&self, shape: &RockShape, bottom_left: &(usize, usize)) -> (hit: bool)
        requires
            bottom_left.0 + shape.spec_width() <= 7,
            bottom_left.1 + 4 <= usize::MAX,
        ensures
            hit == collides(self.grid(), *shape, bottom_left.0 as int, bottom_left.1 as int),
    {
        let blocks = shape.blocks();
        let width = shape.width();
        let height = blocks.len();
        let ghost g = self.grid();
        let ghost x0 = bottom_left.0 as int;
        let ghost y0 = bottom_left.1 as int;
        proof {
            assert forall|c: int, r: int| #[trigger] occupied(g, c, r) implies r >= y0 + 0 || !shape.covers(c - x0, r - y0) by {
                lemma_covers_bounds(*shape, c - x0, r - y0);
            }
        }
        let mut dy: usize = 0;
        while dy < height
            invariant
                dy <= height,
                height == shape.spec_height(),
                width == shape.spec_width(),
                g == self.grid(),
                x0 == bottom_left.0,
                y0 == bottom_left.1,
                x0 + width <= 7,
                y0 + 4 <= usize::MAX,
                blocks@.len() == height,
                forall|dx: int, d: int|
                    0 <= dx < 4 && 0 <= d < height ==> blocks@[height - 1 - d]@[dx] == shape.covers(
                        dx,
                        d,
                    ),
                forall|c: int, r: int| #[trigger]
                    occupied(g, c, r) ==> r >= y0 + dy || !shape.covers(c - x0, r - y0),
            decreases height - dy,
        {
            proof {
                lemma_covers_bounds(*shape, 0, 0);
            }
            let y = bottom_left.1 + dy;
            if y < self.rows.len() {
                let mut dx: usize = 0;
                while dx < 4
                    invariant
                        dx <= 4,
                        dy < height,
                        height == shape.spec_height(),
                        width == shape.spec_width(),
                        g == self.grid(),
                        x0 == bottom_left.0,
                        y0 == bottom_left.1,
                        y == y0 + dy,
                        y < self.rows@.len(),
                        x0 + width <= 7,
                        blocks@.len() == height,
                        forall|d: int|
                            0 <= d < 4 ==> blocks@[height - 1 - dy]@[d] == shape.covers(
                                d,
                                dy as int,
                            ),
                        forall|c: int| #[trigger]
                            occupied(g, c, y as int) ==> c >= x0 + dx || !shape.covers(
                                c - x0,
                                dy as int,
                            ),
                    decreases 4 - dx,
                {
                    if dx < width && blocks[height - 1 - dy][dx] && self.rows[y][bottom_left.0
                        + dx] {
                        proof {
                            assert(occupied(g, x0 + dx, y as int));
                            assert(shape.covers((x0 + dx) - x0, y - y0));
                        }
                        return true;
                    }
                    proof {
                        lemma_covers_bounds(*shape, dx as int, dy as int);
                    }
                    dx += 1;
                }
                proof {
                    assert forall|c: int| #[trigger]
                        occupied(g, c, y as int) implies !shape.covers(c - x0, dy as int) by {
                        lemma_covers_bounds(*shape, c - x0, dy as int);
                    }
                }
            }
            dy += 1;
        }
        proof {
            assert forall|c: int, r: int| #[trigger] occupied(g, c, r) implies !shape.covers(
                c - x0,
                r - y0,
            ) by {
                lemma_covers_bounds(*shape, c - x0, r - y0);
            }
        }
        false
    }

    /// One column to the left, unless the wall or settled rock is in the way.
    pub fn try_left(&self, shape: &RockShape, bottom_left: &(usize, usize)) -> (moved: Option<
        (usize, usize),
    >)
        requires
            bottom_left.0 + shape.spec_width() <= 7,
            bottom_left.1 + 4 <= usize::MAX,
        ensures
            moved == if bottom_left.0 > 0 && !collides(
                self.grid(),
                *shape,
                bottom_left.0 - 1,
                bottom_left.1 as int,
            ) {
                Some(((bottom_left.0 - 1) as usize, bottom_left.1))
            } else {
                None
            },
    {
        if bottom_left.0 == 0 {
            return None;
        }
        let new_coord = (bottom_left.0 - 1, bottom_left.1);
        if self.would_collide(shape, &new_coord) {
            None
        } else {
            Some(new_coord)
        }
    }

    /// One column to the right, unless the wall or settled rock is in the way.
    pub fn try_right(&self, shape: &RockShape, bottom_left: &(usize, usize)) -> (moved: Option<
        (usize, usize),
    >)
        requires
            bottom_left.0 + shape.spec_width() <= 7,
            bottom_left.1 + 4 <= usize::MAX,
        ensures
            moved == if bottom_left.0 + shape.spec_width() < 7 && !collides(
                self.grid(),
                *shape,
                bottom_left.0 + 1,
                bottom_left.1 as int,
            ) {
                Some(((bottom_left.0 + 1) as usize, bottom_left.1))
            } else {
                None
            },
    {
        let cur_right = bottom_left.0 + shape.width() - 1;
        if cur_right >= 6 {
            return None;
        }
        let new_coord = (bottom_left.0 + 1, bottom_left.1);
        if self.would_collide(shape, &new_coord) {
            None
        } else {
            Some(new_coord)
        }
    }

    /// One row down, unless the floor or settled rock is in the way.
    pub fn try_down(&self, shape: &RockShape, bottom_left: &(usize, usize)) -> (moved: Option<
        (usize, usize),
    >)
        requires
            bottom_left.0 + shape.spec_width() <= 7,
            bottom_left.1 + 4 <= usize::MAX,
        ensures
            moved == if bottom_left.1 > 0 && !collides(
                self.grid(),
                *shape,
                bottom_left.0 as int,
                bottom_left.1 - 1,
            ) {
                Some((bottom_left.0, (bottom_left.1 - 1) as usize))
            } else {
                None
            },
    {
        if bottom_left.1 <= 0 {
            return None;
        }
        let new_coord = (bottom_left.0, bottom_left.1 - 1);
        if self.would_collide(shape, &new_coord) {
            None
        } else {
            Some(new_coord)
        }
    }

    /// Writes the rock's cells into the rows, adding rows on top as needed.
    pub fn settle(&mut self, shape: &RockShape, bottom_left: &(usize, usize))
        requires
            bottom_left.0 + shape.spec_width() <= 7,
            bottom_left.1 <= old(self).rows@.len(),
            old(self).rows@.len() + 4 <= usize::MAX,
        ensures
            final(self).grid() == settled(
                old(self).grid(),
                *shape,
                bottom_left.0 as int,
                bottom_left.1 as int,
            ),
            final(self).rows@.len() == settled_len(old(self).grid(), *shape, bottom_left.1 as int),
            final(self).jet_index == old(self).jet_index,
            final(self).elided == old(self).elided,
    {
        let blocks = shape.blocks();
        let width = shape.width();
        let height = blocks.len();
        let ghost g = self.grid();
        let ghost x0 = bottom_left.0 as int;
        let ghost y0 = bottom_left.1 as int;
        let mut dy: usize = 0;
        while dy < height
            invariant
                dy <= height,
                height == shape.spec_height(),
                width == shape.spec_width(),
                g == old(self).grid(),
                g.len() == old(self).rows@.len(),
                x0 == bottom_left.0,
                y0 == bottom_left.1,
                x0 + width <= 7,
                y0 <= g.len(),
                g.len() + 4 <= usize::MAX,
                blocks@.len() == height,
                forall|dx: int, d: int|
                    0 <= dx < 4 && 0 <= d < height ==> blocks@[height - 1 - d]@[dx] == shape.covers(
                        dx,
                        d,
                    ),
                self.jet_index == old(self).jet_index,
                self.elided == old(self).elided,
                self.rows@.len() == if g.len() >= y0 + dy {
                    g.len() as int
                } else {
                    y0 + dy
                },
                forall|r: int, c: int|
                    0 <= r < self.rows@.len() && 0 <= c < 7 ==> #[trigger] self.rows@[r]@[c] == (
                    occupied(g, c, r) || (r < y0 + dy && shape.covers(c - x0, r - y0))),
            decreases height - dy,
        {
            proof {
                lemma_covers_bounds(*shape, 0, 0);
            }
            let y = bottom_left.1 + dy;
            let within_tower = y < self.rows.len();
            let mut row: [bool; 7] = if within_tower {
                self.rows[y]
            } else {
                [false; 7]
            };
            let ghost row0 = row;
            let ghost before = self.rows@;
            proof {
                assert forall|c: int| 0 <= c < 7 implies row0@[c] == occupied(g, c, y as int) by {
                    if within_tower {
                        assert(before[y as int]@[c] == row0@[c]);
                    }
                }
            }
            let mut dx: usize = 0;
            while dx < 4
                invariant
                    dx <= 4,
                    dy < height,
                    width == shape.spec_width(),
                    x0 == bottom_left.0,
                    x0 + width <= 7,
                    blocks@.len() == height,
                    forall|d: int|
                        0 <= d < 4 ==> blocks@[height - 1 - dy]@[d] == shape.covers(d, dy as int),
                    forall|c: int|
                        0 <= c < 7 ==> row@[c] == (row0@[c] || (c < x0 + dx && shape.covers(
                            c - x0,
                            dy as int,
                        ))),
                decreases 4 - dx,
            {
                proof {
                    lemma_covers_bounds(*shape, dx as int, dy as int);
                }
                if dx < width && blocks[height - 1 - dy][dx] {
                    let x = bottom_left.0 + dx;
                    row[x] = true;
                }
                dx += 1;
            }
            proof {
                assert forall|c: int| 0 <= c < 7 implies row@[c] == (row0@[c] || shape.covers(
                    c - x0,
                    dy as int,
                )) by {
                    lemma_covers_bounds(*shape, c - x0, dy as int);
                }
            }
            if within_tower {
                self.rows.set(y, row);
            } else {
                self.rows.push(row);
            }
            proof {
                assert forall|r: int, c: int|
                    0 <= r < self.rows@.len() && 0 <= c < 7 implies #[trigger] self.rows@[r]@[c]
                    == (occupied(g, c, r) || (r < y0 + dy + 1 && shape.covers(c - x0, r - y0))) by {
                    if r == y {
                        assert(self.rows@[r] == row);
                    } else {
                        assert(self.rows@[r] == before[r]);
                        assert(before[r]@[c] == (occupied(g, c, r) || (r < y0 + dy && shape.covers(
                            c - x0,
                            r - y0,
                        ))));
                    }
                }
            }
            dy += 1;
        }
        proof {
            let after = self.grid();
            let want = settled(g, *shape, x0, y0);
            assert(after.len() == want.len());
            assert forall|r: int| 0 <= r < after.len() implies after[r] =~= want[r] by {
                assert forall|c: int| 0 <= c < 7 implies after[r][c] == want[r][c] by {
                    lemma_covers_bounds(*shape, c - x0, r - y0);
                    assert(after[r][c] == self.rows@[r]@[c]);
                }
            }
            assert(after =~= want);
        }
    }

    /// Whether every cell of the kept row `r` is occupied.
    pub fn row_is_full(&self, r: usize) -> (full: bool)
        requires
            r < self.rows@.len(),
        ensures
            full == full_row(self.grid(), r as int),
    {
        let mut c: usize = 0;
        while c < 7
            invariant
                c <= 7,
                r < self.rows@.len(),
                forall|k: int| 0 <= k < c ==> #[trigger] self.grid()[r as int][k],
            decreases 7 - c,
        {
            if !self.rows[r][c] {
                assert(!self.grid()[r as int][c as int]);
                return false;
            }
            c += 1;
        }
        true
    }

    /// The highest full row among the kept rows `lo` up to, not including, `hi`.
    pub fn highest_full_row(&self, lo: usize, hi: usize) -> (found: Option<usize>)
        requires
            lo <= hi <= self.rows@.len(),
        ensures
            match found {
                Some(r) => lo <= r < hi && full_row(self.grid(), r as int) && forall|k: int|
                    r < k < hi ==> !full_row(self.grid(), k),
                None => forall|k: int| lo <= k < hi ==> !full_row(self.grid(), k),
            },
    {
        let mut r: usize = hi;
        while r > lo
            invariant
                lo <= r <= hi <= self.rows@.len(),
                forall|k: int| r <= k < hi ==> !full_row(self.grid(), k),
            decreases r,
        {
            r -= 1;
            if self.row_is_full(r) {
                return Some(r);
            }
        }
        None
    }

    /// Lets a rock of the given shape fall from above the tower and gives
    /// the place where it comes to rest. The rows are left as they are; the
    /// count of the jets used grows by one for every row fallen and one
    /// more.
    pub fn come_to_rest(&mut self, shape: &RockShape, jet_dirs: &[u8]) -> (coord: (usize, usize))
        requires
            valid_jets(jet_dirs@),
            old(self).has_room(1),
            old(self).can_count(),
        ensures
            (coord.0 as int, coord.1 as int, final(self).jet_position(jet_dirs@)) == rest(
                old(self).grid(),
                *shape,
                jet_dirs@,
                2,
                old(self).rows@.len() as int + 3,
                old(self).jet_position(jet_dirs@),
            ),
            final(self).jet_index == old(self).jet_index + (old(self).rows@.len() + 3 - coord.1)
                + 1,
            final(self).rows == old(self).rows,
            final(self).elided == old(self).elided,
            coord.0 + shape.spec_width() <= 7,
            coord.1 <= old(self).rows@.len(),
            !collides(old(self).grid(), *shape, coord.0 as int, coord.1 as int),
    {
        let len = jet_dirs.len();
        let mut coord = self.new_rock_coord();
        let ghost g = self.grid();
        let ghost j0 = self.jet_position(jet_dirs@);
        proof {
            lemma_covers_bounds(*shape, 0, 0);
            assert forall|c: int, r: int| #[trigger] occupied(g, c, r) implies !shape.covers(
                c - coord.0,
                r - coord.1,
            ) by {
                lemma_covers_bounds(*shape, c - coord.0, r - coord.1);
            }
        }
        loop
            invariant
                valid_jets(jet_dirs@),
                len == jet_dirs@.len(),
                self.grid() == g,
                g.len() == self.rows@.len(),
                self.rows == old(self).rows,
                self.elided == old(self).elided,
                old(self).can_count(),
                self.jet_index == old(self).jet_index + (g.len() + 3 - coord.1),
                coord.0 + shape.spec_width() <= 7,
                coord.1 <= g.len() + 3,
                g.len() + 8 <= usize::MAX,
                j0 == old(self).jet_position(jet_dirs@),
                !collides(g, *shape, coord.0 as int, coord.1 as int),
                rest(g, *shape, jet_dirs@, 2, g.len() as int + 3, j0) == rest(
                    g,
                    *shape,
                    jet_dirs@,
                    coord.0 as int,
                    coord.1 as int,
                    self.jet_position(jet_dirs@),
                ),
            decreases coord.1,
        {
            let ghost before = self.jet_index as int;
            proof {
                lemma_mod_bound(before, len as int);
                lemma_add_mod_noop_right(1, before, len as int);
                assert(next_jet(jet_dirs@, before % (len as int)) == (before + 1) % (len as int));
            }
            let jet = jet_dirs[self.jet_index % len];
            self.jet_index += 1;
            let maybe_new_coord = if jet == LEFT {
                self.try_left(shape, &coord)
            } else {
                self.try_right(shape, &coord)
            };
            coord = match maybe_new_coord {
                Some(new_coord) => new_coord,
                None => coord,
            };
            let maybe_down = self.try_down(shape, &coord);
            match maybe_down {
                Some(new_coord) => {
                    coord = new_coord;
                },
                None => {
                    proof {
                        lemma_rests_within(g, *shape, coord.0 as int, coord.1 as int);
                    }
                    return coord;
                },
            }
        }
    }

    /// Drops one rock: it appears above the tower, is pushed by a jet and
    /// falls one row, in turn, until it cannot fall, and settles there. The
    /// count of the jets used grows by the number of pushes.
    pub fn simulate_single_rock(&mut self, rock_index: u64, jet_dirs: &[u8]) -> (outcome:
        Settlement)
        requires
            valid_jets(jet_dirs@),
            old(self).has_room(1),
            old(self).can_count(),
        ensures
            (final(self).grid(), final(self).jet_position(jet_dirs@)) == drop_rock(
                old(self).grid(),
                shape_at(rock_index as int),
                jet_dirs@,
                old(self).jet_position(jet_dirs@),
            ),
            final(self).jet_index == old(self).jet_index + jets_used(
                old(self).grid(),
                shape_at(rock_index as int),
                jet_dirs@,
                old(self).jet_position(jet_dirs@),
            ),
            final(self).elided == old(self).elided,
            old(self).rows@.len() <= final(self).rows@.len() <= old(self).rows@.len() + 4,
            outcome.height == final(self).spec_height(),
            match outcome.completed_row {
                Some(a) => a >= final(self).elided && became_full(
                    old(self).grid(),
                    final(self).grid(),
                    a - final(self).elided,
                ) && forall|r: int|
                    r > a - final(self).elided ==> !became_full(
                        old(self).grid(),
                        final(self).grid(),
                        r,
                    ),
                None => forall|r: int| !became_full(old(self).grid(), final(self).grid(), r),
            },
    {
        let shape = rock_shape(rock_index);
        let coord = self.come_to_rest(&shape, jet_dirs);
        self.settle(&shape, &coord);
        let top = coord.1 + shape.blocks().len();
        let found = self.highest_full_row(coord.1, top);
        proof {
            lemma_completed_rows(old(self).grid(), shape, coord.0 as int, coord.1 as int);
        }
        let height = self.height();
        let completed_row = match found {
            Some(r) => Some(self.elided + r as u64),
            None => None,
        };
        Settlement { completed_row, height }
    }

    /// The height after `rounds` more rocks, each one simulated.
    pub fn calc_height_directly(&mut self, jet_dirs: &[u8], rounds: u64) -> (height: u64)
        requires
            valid_jets(jet_dirs@),
            old(self).has_room(rounds as int),
            old(self).can_count_drops(jet_dirs@, rounds as int),
        ensures
            (final(self).grid(), final(self).jet_position(jet_dirs@)) == run(
                old(self).grid(),
                old(self).jet_position(jet_dirs@),
                jet_dirs@,
                0,
                rounds as nat,
            ),
            final(self).jet_index == old(self).jet_index + run_jets(
                old(self).grid(),
                old(self).jet_position(jet_dirs@),
                jet_dirs@,
                0,
                rounds as nat,
            ),
            final(self).elided == old(self).elided,
            height == final(self).spec_height(),
    {
        let ghost g0 = self.grid();
        let ghost j0 = self.jet_position(jet_dirs@);
        let mut rock_index: u64 = 0;
        while rock_index < rounds
            invariant
                valid_jets(jet_dirs@),
                rock_index <= rounds,
                old(self).has_room(rounds as int),
                old(self).can_count_drops(jet_dirs@, rounds as int),
                g0 == old(self).grid(),
                j0 == old(self).jet_position(jet_dirs@),
                self.elided == old(self).elided,
                self.rows@.len() <= old(self).rows@.len() + 4 * rock_index,
                (self.grid(), self.jet_position(jet_dirs@)) == run(
                    g0,
                    j0,
                    jet_dirs@,
                    0,
                    rock_index as nat,
                ),
                self.jet_index == old(self).jet_index + run_jets(
                    g0,
                    j0,
                    jet_dirs@,
                    0,
                    rock_index as nat,
                ),
            decreases rounds - rock_index,
        {
            proof {
                assert(old(self).jet_index + run_jets(g0, j0, jet_dirs@, 0, rock_index as nat)
                    + run(g0, j0, jet_dirs@, 0, rock_index as nat).0.len() + 4 <= usize::MAX);
                assert(self.grid().len() == self.rows@.len());
            }
            self.simulate_single_rock(rock_index, jet_dirs);
            rock_index += 1;
        }
        self.height()
    }
}

/// A rock that cannot fall further rests on the floor or on settled rock,
/// so not above the tower.
pub proof fn lemma_rests_within(g: Seq<Seq<bool>>, shape: RockShape, x: int, y: int)
    requires
        y == 0 || collides(g, shape, x, y - 1),
        y >= 0,
    ensures
        y <= g.len(),
{
    if y > 0 {
        let (c, r) = choose|c: int, r: int|
            shape.covers(c - x, r - (y - 1)) && #[trigger] occupied(g, c, r);
        lemma_covers_bounds(shape, c - x, r - (y - 1));
    }
}

/// A rock that settles where it touches no settled rock completes rows only
/// among those it lies in, and none of those was full before.
pub proof fn lemma_completed_rows(g: Seq<Seq<bool>>, shape: RockShape, x: int, y: int)
    requires
        !collides(g, shape, x, y),
        0 <= y <= g.len(),
        0 <= x,
        x + shape.spec_width() <= 7,
    ensures
        forall|r: int|
            became_full(g, settled(g, shape, x, y), r) <==> y <= r < y + shape.spec_height()
                && full_row(settled(g, shape, x, y), r),
{
    let after = settled(g, shape, x, y);
    let top = y + shape.spec_height();
    assert forall|r: int| became_full(g, after, r) implies y <= r < top by {
        if !(y <= r < top) {
            assert forall|c: int| 0 <= c < 7 implies #[trigger] g[r][c] by {
                lemma_covers_bounds(shape, c - x, r - y);
                assert(after[r][c]);
            }
        }
    }
    assert forall|r: int| y <= r < top implies !full_row(g, r) by {
        lemma_covers_bounds(shape, 0, r - y);
        let c = x + shape.spine();
        assert(shape.covers(c - x, r - y));
        assert(!occupied(g, c, r));
        if r < g.len() {
            assert(!g[r][c]);
        }
    }
}

} // verus!
