//! The blizzards of a valley, cell by cell, at one moment.

use vstd::prelude::*;
use crate::day24::rewind::{any_marked, blank_layer, is_layer};

verus! {

#[derive(Debug, Clone, Copy, PartialEq, Eq, Structural)]
pub enum Direction {
    North,
    East,
    South,
    West,
}

/// For every row and every column of it, the blizzards that are there.
#[derive(Debug)]
pub struct Blizzards(pub Vec<Vec<Vec<Direction>>>);

impl Blizzards {
    /// The blizzards at column `x` of row `y`.
    pub open spec fn at(&self, x: int, y: int) -> Seq<Direction> {
        self.0@[y]@[x]@
    }

    /// Every row has the same number of columns.
    pub open spec fn is_grid(&self, width: int, height: int) -> bool {
        &&& self.0@.len() == height
        &&& forall|y: int| 0 <= y < height ==> (#[trigger] self.0@[y])@.len() == width
    }

    /// A valley of the given size without any blizzard.
    pub fn new(width: usize, height: usize) -> (blizzards: Blizzards)
        ensures
            blizzards.is_grid(width as int, height as int),
            forall|x: int, y: int|
                0 <= x < width && 0 <= y < height ==> (#[trigger] blizzards.at(x, y)).len() == 0,
    {
        let mut rows: Vec<Vec<Vec<Direction>>> = Vec::new();
        let mut y: usize = 0;
        while y < height
            invariant
                y <= height,
                rows@.len() == y,
                forall|r: int| 0 <= r < y ==> (#[trigger] rows@[r])@.len() == width,
                forall|r: int, c: int|
                    0 <= r < y && 0 <= c < width ==> (#[trigger] rows@[r]@[c])@.len() == 0,
            decreases height - y,
        {
            let mut row: Vec<Vec<Direction>> = Vec::new();
            let mut x: usize = 0;
            while x < width
                invariant
                    x <= width,
                    row@.len() == x,
                    forall|c: int| 0 <= c < x ==> (#[trigger] row@[c])@.len() == 0,
                decreases width - x,
            {
                row.push(Vec::new());
                x += 1;
            }
            rows.push(row);
            y += 1;
        }
        Blizzards(rows)
    }

    /// Whether no blizzard is at column `x` of row `y`.
    pub fn is_open(&self, x: usize, y: usize) -> (open: bool)
        requires
            y < self.0@.len(),
            x < self.0@[y as int]@.len(),
        ensures
            open == (self.at(x as int, y as int).len() == 0),
    {
        self.0[y][x].is_empty()
    }

    pub fn height(&self) -> (h: usize)
        ensures
            h == self.0@.len(),
    {
        self.0.len()
    }

    pub fn width(&self) -> (w: usize)
        requires
            self.0@.len() > 0,
        ensures
            w == self.0@[0]@.len(),
    {
        self.0[0].len()
    }
}

/// How many of the blizzards blow in the direction.
pub open spec fn count(blizzards: Seq<Direction>, direction: Direction) -> nat
    decreases blizzards.len(),
{
    if blizzards.len() == 0 {
        0
    } else {
        count(blizzards.drop_last(), direction) + if blizzards.last() == direction {
            1nat
        } else {
            0nat
        }
    }
}

/// Where a blizzard at `x`, `y` is a minute later: one step on, or at the
/// far side of the valley where the step would leave it.
pub open spec fn downwind(direction: Direction, x: int, y: int, width: int, height: int) -> (
    int,
    int,
) {
    match direction {
        Direction::North => if y == 1 {
            (x, height - 2)
        } else {
            (x, y - 1)
        },
        Direction::South => if y == height - 2 {
            (x, 1)
        } else {
            (x, y + 1)
        },
        Direction::West => if x == 1 {
            (width - 2, y)
        } else {
            (x - 1, y)
        },
        Direction::East => if x == width - 2 {
            (1, y)
        } else {
            (x + 1, y)
        },
    }
}

/// Where a blizzard at `x`, `y` was a minute before.
pub open spec fn upwind(direction: Direction, x: int, y: int, width: int, height: int) -> (int, int) {
    match direction {
        Direction::North => downwind(Direction::South, x, y, width, height),
        Direction::South => downwind(Direction::North, x, y, width, height),
        Direction::West => downwind(Direction::East, x, y, width, height),
        Direction::East => downwind(Direction::West, x, y, width, height),
    }
}

/// Whether the place lies within the walls of the valley.
pub open spec fn inside(x: int, y: int, width: int, height: int) -> bool {
    1 <= x <= width - 2 && 1 <= y <= height - 2
}

impl Blizzards {
    /// No blizzard is on the edge of the valley, where the walls are.
    pub open spec fn walls_clear(&self, width: int, height: int) -> bool {
        forall|x: int, y: int|
            0 <= x < width && 0 <= y < height && !inside(x, y, width, height) ==> (
            #[trigger] self.at(x, y)).len() == 0
    }

    /// The blizzards a minute later: each one a step on in its direction,
    /// or at the far side where the step would take it into a wall.
    pub fn next(&self) -> (later: Blizzards)
        requires
            self.0@.len() >= 3,
            self.0@[0]@.len() >= 3,
            self.is_grid(self.0@[0]@.len() as int, self.0@.len() as int),
            self.walls_clear(self.0@[0]@.len() as int, self.0@.len() as int),
        ensures
            later.is_grid(self.0@[0]@.len() as int, self.0@.len() as int),
            later.walls_clear(self.0@[0]@.len() as int, self.0@.len() as int),
            forall|x: int, y: int, d: Direction|
                inside(x, y, self.0@[0]@.len() as int, self.0@.len() as int) ==> #[trigger] count(later.at(x, y), d) == count(
                    self.at(
                        upwind(d, x, y, self.0@[0]@.len() as int, self.0@.len() as int).0,
                        upwind(d, x, y, self.0@[0]@.len() as int, self.0@.len() as int).1,
                    ),
                    d,
                ),
    {
        let height = self.height();
        let width = self.width();
        let mut next_blizzards = Self::new(width, height);
        let ghost w = width as int;
        let ghost h = height as int;
        let mut x: usize = 0;
        while x < width
            invariant
                x <= width,
                w == width,
                h == height,
                w >= 3,
                h >= 3,
                self.is_grid(w, h),
                self.walls_clear(w, h),
                next_blizzards.is_grid(w, h),
                next_blizzards.walls_clear(w, h),
                forall|tx: int, ty: int, d: Direction|
                    inside(tx, ty, w, h) ==> #[trigger] count(next_blizzards.at(tx, ty), d)
                        == count(
                        moved_from(self, d, tx, ty, w, h).subrange(
                            0,
                            moved_so_far(self, d, tx, ty, w, h, x as int, 0, 0),
                        ),
                        d,
                    ),
            decreases width - x,
        {
            let mut y: usize = 0;
            while y < height
                invariant
                    x < width,
                    y <= height,
                    w == width,
                    h == height,
                    w >= 3,
                    h >= 3,
                    self.is_grid(w, h),
                    self.walls_clear(w, h),
                    next_blizzards.is_grid(w, h),
                    next_blizzards.walls_clear(w, h),
                    forall|tx: int, ty: int, d: Direction|
                        inside(tx, ty, w, h) ==> #[trigger] count(next_blizzards.at(tx, ty), d)
                            == count(
                            moved_from(self, d, tx, ty, w, h).subrange(
                                0,
                                moved_so_far(self, d, tx, ty, w, h, x as int, y as int, 0),
                            ),
                            d,
                        ),
                decreases height - y,
            {
                let here = &self.0[y][x];
                let mut k: usize = 0;
                while k < here.len()
                    invariant
                        x < width,
                        y < height,
                        k <= here@.len(),
                        here@ == self.at(x as int, y as int),
                        w == width,
                        h == height,
                        w >= 3,
                        h >= 3,
                        self.is_grid(w, h),
                        self.walls_clear(w, h),
                        next_blizzards.is_grid(w, h),
                        next_blizzards.walls_clear(w, h),
                        forall|tx: int, ty: int, d: Direction|
                            inside(tx, ty, w, h) ==> #[trigger] count(next_blizzards.at(tx, ty), d) == count(
                                moved_from(self, d, tx, ty, w, h).subrange(
                                    0,
                                    moved_so_far(
                                        self,
                                        d,
                                        tx,
                                        ty,
                                        w,
                                        h,
                                        x as int,
                                        y as int,
                                        k as int,
                                    ),
                                ),
                                d,
                            ),
                    decreases here@.len() - k,
                {
                    let b = here[k];
                    assert(inside(x as int, y as int, w, h)) by {
                        if !inside(x as int, y as int, w, h) {
                            assert(self.at(x as int, y as int).len() == 0);
                        }
                    }
                    let (new_x, new_y) = match b {
                        Direction::North => if y == 1 {
                            (x, height - 2)
                        } else {
                            (x, y - 1)
                        },
                        Direction::South => if y == height - 2 {
                            (x, 1)
                        } else {
                            (x, y + 1)
                        },
                        Direction::West => if x == 1 {
                            (width - 2, y)
                        } else {
                            (x - 1, y)
                        },
                        Direction::East => if x == width - 2 {
                            (1, y)
                        } else {
                            (x + 1, y)
                        },
                    };
                    let ghost before = next_blizzards;
                    next_blizzards.0[new_y][new_x].push(b);
                    proof {
                        assert(next_blizzards.is_grid(w, h));
                        assert forall|cx: int, cy: int| 0 <= cx < w && 0 <= cy < h implies (
                        #[trigger] next_blizzards.at(cx, cy)) == if cx == new_x && cy == new_y {
                            before.at(cx, cy).push(b)
                        } else {
                            before.at(cx, cy)
                        } by {}
                        assert forall|tx: int, ty: int, d: Direction|
                            inside(tx, ty, w, h) implies #[trigger] count(next_blizzards.at(tx, ty), d) == count(
                            moved_from(self, d, tx, ty, w, h).subrange(
                                0,
                                moved_so_far(self, d, tx, ty, w, h, x as int, y as int, k + 1),
                            ),
                            d,
                        ) by {
                            lemma_one_more(
                                self,
                                before,
                                next_blizzards,
                                d,
                                tx,
                                ty,
                                w,
                                h,
                                x as int,
                                y as int,
                                k as int,
                                b,
                                new_x as int,
                                new_y as int,
                            );
                        }
                    }
                    k += 1;
                }
                proof {
                    assert forall|tx: int, ty: int, d: Direction|
                        inside(tx, ty, w, h) implies moved_so_far(
                        self,
                        d,
                        tx,
                        ty,
                        w,
                        h,
                        x as int,
                        y as int,
                        here@.len() as int,
                    ) == moved_so_far(self, d, tx, ty, w, h, x as int, y + 1, 0) by {}
                }
                y += 1;
            }
            proof {
                assert forall|tx: int, ty: int, d: Direction| inside(tx, ty, w, h) implies moved_so_far(
                    self,
                    d,
                    tx,
                    ty,
                    w,
                    h,
                    x as int,
                    h,
                    0,
                ) == moved_so_far(self, d, tx, ty, w, h, x + 1, 0, 0) by {}
            }
            x += 1;
        }
        proof {
            assert forall|tx: int, ty: int, d: Direction| inside(tx, ty, w, h) implies #[trigger] count(next_blizzards.at(tx, ty), d) == count(moved_from(self, d, tx, ty, w, h), d) by {
                let from = moved_from(self, d, tx, ty, w, h);
                assert(moved_so_far(self, d, tx, ty, w, h, w, 0, 0) == from.len());
                assert(from.subrange(0, from.len() as int) =~= from);
            }
        }
        next_blizzards
    }
}

/// The blizzards at the place from which the wind `d` blows to `tx`, `ty`.
pub open spec fn moved_from(
    valley: &Blizzards,
    d: Direction,
    tx: int,
    ty: int,
    w: int,
    h: int,
) -> Seq<Direction> {
    valley.at(upwind(d, tx, ty, w, h).0, upwind(d, tx, ty, w, h).1)
}

/// How many of the blizzards upwind of `tx`, `ty` have been moved on when
/// the columns before `x`, the places of column `x` before `y`, and the
/// first `k` blizzards at `x`, `y` have been.
pub open spec fn moved_so_far(
    valley: &Blizzards,
    d: Direction,
    tx: int,
    ty: int,
    w: int,
    h: int,
    x: int,
    y: int,
    k: int,
) -> int {
    let (sx, sy) = upwind(d, tx, ty, w, h);
    if sx < x || (sx == x && sy < y) {
        valley.at(sx, sy).len() as int
    } else if sx == x && sy == y {
        k
    } else {
        0
    }
}

/// Moving one blizzard more keeps the count of what has arrived equal to
/// the count of what has left.
pub proof fn lemma_one_more(
    valley: &Blizzards,
    before: Blizzards,
    after: Blizzards,
    d: Direction,
    tx: int,
    ty: int,
    w: int,
    h: int,
    x: int,
    y: int,
    k: int,
    b: Direction,
    new_x: int,
    new_y: int,
)
    requires
        w >= 3,
        h >= 3,
        inside(tx, ty, w, h),
        inside(x, y, w, h),
        0 <= k < valley.at(x, y).len(),
        b == valley.at(x, y)[k],
        (new_x, new_y) == downwind(b, x, y, w, h),
        after.at(tx, ty) == if tx == new_x && ty == new_y {
            before.at(tx, ty).push(b)
        } else {
            before.at(tx, ty)
        },
        count(before.at(tx, ty), d) == count(
            moved_from(valley, d, tx, ty, w, h).subrange(
                0,
                moved_so_far(valley, d, tx, ty, w, h, x, y, k),
            ),
            d,
        ),
    ensures
        count(after.at(tx, ty), d) == count(
            moved_from(valley, d, tx, ty, w, h).subrange(
                0,
                moved_so_far(valley, d, tx, ty, w, h, x, y, k + 1),
            ),
            d,
        ),
{
    let from = moved_from(valley, d, tx, ty, w, h);
    let (sx, sy) = upwind(d, tx, ty, w, h);
    if tx == new_x && ty == new_y {
        assert(before.at(tx, ty).push(b).drop_last() =~= before.at(tx, ty));
    }
    if sx == x && sy == y {
        assert(from.subrange(0, k + 1).drop_last() =~= from.subrange(0, k));
        assert(from.subrange(0, k + 1).last() == b);
    }
}

/// The valley as it is minute by minute: its size, its walls, and the
/// blizzards of each minute of the cycle after which they repeat.
pub open spec fn is_valley(
    all_blizzards: Seq<Blizzards>,
    walls: Seq<Vec<bool>>,
    width: int,
    height: int,
) -> bool {
    &&& 0 < width
    &&& 0 < height
    &&& 0 < width * height <= usize::MAX
    &&& all_blizzards.len() == width * height
    &&& is_layer(walls, width, height)
    &&& forall|m: int|
        0 <= m < all_blizzards.len() ==> (#[trigger] all_blizzards[m]).is_grid(width, height)
}

/// Whether one can step, or wait, from `from` to `to` during minute
/// `minute`: the two lie side by side or are the same, and `to` is in the
/// valley, no wall, and free of the blizzards of that minute.
pub open spec fn can_go(
    all_blizzards: Seq<Blizzards>,
    walls: Seq<Vec<bool>>,
    width: int,
    height: int,
    from: (usize, usize),
    to: (usize, usize),
    minute: int,
) -> bool {
    &&& to.0 < width
    &&& to.1 < height
    &&& (from == to || (from.1 == to.1 && (from.0 + 1 == to.0 || to.0 + 1 == from.0)) || (from.0
        == to.0 && (from.1 + 1 == to.1 || to.1 + 1 == from.1)))
    &&& !walls[to.1 as int]@[to.0 as int]
    &&& all_blizzards[minute % (width * height)].at(to.0 as int, to.1 as int).len() == 0
}

/// The places one can be at the start of minute `minute`, having been at
/// `start` at the start of minute `start_min`.
pub open spec fn places(
    all_blizzards: Seq<Blizzards>,
    walls: Seq<Vec<bool>>,
    width: int,
    height: int,
    start: (usize, usize),
    start_min: int,
    minute: int,
) -> Set<(usize, usize)>
    decreases minute - start_min,
{
    if minute < start_min {
        Set::empty()
    } else if minute == start_min {
        set![start]
    } else {
        let before = places(all_blizzards, walls, width, height, start, start_min, minute - 1);
        Set::new(
            |p: (usize, usize)|
                exists|q: (usize, usize)|
                    #[trigger] before.contains(q) && q.0 < width && q.1 < height && can_go(
                        all_blizzards,
                        walls,
                        width,
                        height,
                        q,
                        p,
                        minute - 1,
                    ),
        )
    }
}

/// The layer marks the places of the set, all of which lie in the valley.
pub open spec fn marks_places(layer: Seq<Vec<bool>>, width: int, height: int, set: Set<(usize, usize)>) -> bool {
    forall|p: (usize, usize)| #[trigger]
        set.contains(p) <==> p.0 < width && p.1 < height && layer[p.1 as int]@[p.0 as int]
}

/// Marks `to` on the layer if one can go there from `from` during the
/// minute.
pub fn mark_if_free(
    next: &mut Vec<Vec<bool>>,
    all_blizzards: &Vec<Blizzards>,
    walls: &Vec<Vec<bool>>,
    width: usize,
    height: usize,
    from: (usize, usize),
    to: (usize, usize),
    minute: usize,
)
    requires
        is_valley(all_blizzards@, walls@, width as int, height as int),
        is_layer(old(next)@, width as int, height as int),
        from.0 < width,
        from.1 < height,
        to.0 < width,
        to.1 < height,
    ensures
        is_layer(final(next)@, width as int, height as int),
        forall|r: int, c: int|
            0 <= r < height && 0 <= c < width ==> #[trigger] final(next)@[r]@[c] == (old(
                next,
            )@[r]@[c] || ((c as usize, r as usize) == to && can_go(
                all_blizzards@,
                walls@,
                width as int,
                height as int,
                from,
                to,
                minute as int,
            ))),
{
    let near = from.0 == to.0 && from.1 == to.1 || (from.1 == to.1 && (from.0 + 1 == to.0 || to.0 + 1
        == from.0)) || (from.0 == to.0 && (from.1 + 1 == to.1 || to.1 + 1 == from.1));
    proof {
        vstd::arithmetic::div_mod::lemma_mod_bound(minute as int, width * height);
    }
    if near && !walls[to.1][to.0] {
        let blizzards = &all_blizzards[minute % (width * height)];
        if blizzards.is_open(to.0, to.1) {
            next[to.1][to.0] = true;
        }
    }
}

/// Marks on the layer the places one can go to from `from` during the
/// minute.
pub fn mark_ways(
    next: &mut Vec<Vec<bool>>,
    all_blizzards: &Vec<Blizzards>,
    walls: &Vec<Vec<bool>>,
    width: usize,
    height: usize,
    from: (usize, usize),
    minute: usize,
)
    requires
        is_valley(all_blizzards@, walls@, width as int, height as int),
        is_layer(old(next)@, width as int, height as int),
        from.0 < width,
        from.1 < height,
    ensures
        is_layer(final(next)@, width as int, height as int),
        forall|r: int, c: int|
            0 <= r < height && 0 <= c < width ==> #[trigger] final(next)@[r]@[c] == (old(
                next,
            )@[r]@[c] || can_go(
                all_blizzards@,
                walls@,
                width as int,
                height as int,
                from,
                (c as usize, r as usize),
                minute as int,
            )),
{
    let ghost zero = next@;
    if from.1 > 0 {
        mark_if_free(next, all_blizzards, walls, width, height, from, (from.0, from.1 - 1), minute);
    }
    let ghost one = next@;
    if from.1 + 1 < height {
        mark_if_free(next, all_blizzards, walls, width, height, from, (from.0, from.1 + 1), minute);
    }
    let ghost two = next@;
    if from.0 > 0 {
        mark_if_free(next, all_blizzards, walls, width, height, from, (from.0 - 1, from.1), minute);
    }
    let ghost three = next@;
    if from.0 + 1 < width {
        mark_if_free(next, all_blizzards, walls, width, height, from, (from.0 + 1, from.1), minute);
    }
    let ghost four = next@;
    mark_if_free(next, all_blizzards, walls, width, height, from, from, minute);
    proof {
        assert forall|r: int, c: int| 0 <= r < height && 0 <= c < width implies #[trigger] next@[r]@[c]
            == (zero[r]@[c] || can_go(
            all_blizzards@,
            walls@,
            width as int,
            height as int,
            from,
            (c as usize, r as usize),
            minute as int,
        )) by {
            assert(one[r]@[c] == one[r]@[c]);
            assert(two[r]@[c] == two[r]@[c]);
            assert(three[r]@[c] == three[r]@[c]);
            assert(four[r]@[c] == four[r]@[c]);
        }
    }
}

/// The places one can be a minute later, given the places one can be now.
pub fn later_layer(
    frontier: &Vec<Vec<bool>>,
    all_blizzards: &Vec<Blizzards>,
    walls: &Vec<Vec<bool>>,
    width: usize,
    height: usize,
    minute: usize,
) -> (next: Vec<Vec<bool>>)
    requires
        is_valley(all_blizzards@, walls@, width as int, height as int),
        is_layer(frontier@, width as int, height as int),
    ensures
        is_layer(next@, width as int, height as int),
        forall|r: int, c: int|
            0 <= r < height && 0 <= c < width ==> (#[trigger] next@[r]@[c] <==> exists|
                px: int,
                py: int,
            |
                0 <= px < width && 0 <= py < height && #[trigger] frontier@[py]@[px] && can_go(
                    all_blizzards@,
                    walls@,
                    width as int,
                    height as int,
                    (px as usize, py as usize),
                    (c as usize, r as usize),
                    minute as int,
                )),
{
    let mut next = blank_layer(width, height);
    let mut y: usize = 0;
    while y < height
        invariant
            y <= height,
            is_valley(all_blizzards@, walls@, width as int, height as int),
            is_layer(frontier@, width as int, height as int),
            is_layer(next@, width as int, height as int),
            forall|r: int, c: int|
                0 <= r < height && 0 <= c < width ==> (#[trigger] next@[r]@[c] <==> exists|
                    px: int,
                    py: int,
                |
                    0 <= px < width && 0 <= py < y && #[trigger] frontier@[py]@[px] && can_go(
                        all_blizzards@,
                        walls@,
                        width as int,
                        height as int,
                        (px as usize, py as usize),
                        (c as usize, r as usize),
                        minute as int,
                    )),
        decreases height - y,
    {
        let mut x: usize = 0;
        while x < width
            invariant
                x <= width,
                y < height,
                is_valley(all_blizzards@, walls@, width as int, height as int),
                is_layer(frontier@, width as int, height as int),
                is_layer(next@, width as int, height as int),
                forall|r: int, c: int|
                    0 <= r < height && 0 <= c < width ==> (#[trigger] next@[r]@[c] <==> exists|
                        px: int,
                        py: int,
                    |
                        0 <= px < width && 0 <= py <= y && (py < y || px < x)
                            && #[trigger] frontier@[py]@[px] && can_go(
                            all_blizzards@,
                            walls@,
                            width as int,
                            height as int,
                            (px as usize, py as usize),
                            (c as usize, r as usize),
                            minute as int,
                        )),
            decreases width - x,
        {
            let ghost before = next@;
            if frontier[y][x] {
                mark_ways(&mut next, all_blizzards, walls, width, height, (x, y), minute);
            }
            proof {
                assert forall|r: int, c: int| 0 <= r < height && 0 <= c < width implies (
                #[trigger] next@[r]@[c] <==> exists|px: int, py: int|
                    0 <= px < width && 0 <= py <= y && (py < y || px < x + 1)
                        && #[trigger] frontier@[py]@[px] && can_go(
                        all_blizzards@,
                        walls@,
                        width as int,
                        height as int,
                        (px as usize, py as usize),
                        (c as usize, r as usize),
                        minute as int,
                    )) by {
                    let here = frontier@[y as int]@[x as int] && can_go(
                        all_blizzards@,
                        walls@,
                        width as int,
                        height as int,
                        (x, y),
                        (c as usize, r as usize),
                        minute as int,
                    );
                    assert(next@[r]@[c] == (before[r]@[c] || here));
                    if before[r]@[c] {
                        let (px, py) = choose|px: int, py: int|
                            0 <= px < width && 0 <= py <= y && (py < y || px < x)
                                && #[trigger] frontier@[py]@[px] && can_go(
                                all_blizzards@,
                                walls@,
                                width as int,
                                height as int,
                                (px as usize, py as usize),
                                (c as usize, r as usize),
                                minute as int,
                            );
                        assert(py < y || px < x + 1);
                    }
                }
            }
            x += 1;
        }
        y += 1;
    }
    next
}

/// A layer built from the layer before marks the places one can be at.
pub proof fn lemma_later_layer(
    all_blizzards: Seq<Blizzards>,
    walls: Seq<Vec<bool>>,
    width: int,
    height: int,
    start: (usize, usize),
    start_min: int,
    frontier: Seq<Vec<bool>>,
    next: Seq<Vec<bool>>,
    minute: int,
)
    requires
        start_min <= minute,
        width <= usize::MAX,
        height <= usize::MAX,
        is_layer(frontier, width, height),
        is_layer(next, width, height),
        marks_places(
            frontier,
            width,
            height,
            places(all_blizzards, walls, width, height, start, start_min, minute),
        ),
        forall|r: int, c: int|
            0 <= r < height && 0 <= c < width ==> (#[trigger] next[r]@[c] <==> exists|
                px: int,
                py: int,
            |
                0 <= px < width && 0 <= py < height && #[trigger] frontier[py]@[px] && can_go(
                    all_blizzards,
                    walls,
                    width,
                    height,
                    (px as usize, py as usize),
                    (c as usize, r as usize),
                    minute,
                )),
    ensures
        marks_places(
            next,
            width,
            height,
            places(all_blizzards, walls, width, height, start, start_min, minute + 1),
        ),
{
    let before = places(all_blizzards, walls, width, height, start, start_min, minute);
    let now = places(all_blizzards, walls, width, height, start, start_min, minute + 1);
    assert forall|p: (usize, usize)| #[trigger]
        now.contains(p) <==> p.0 < width && p.1 < height && next[p.1 as int]@[p.0 as int] by {
        if now.contains(p) {
            let q = choose|q: (usize, usize)|
                #[trigger] before.contains(q) && q.0 < width && q.1 < height && can_go(
                    all_blizzards,
                    walls,
                    width,
                    height,
                    q,
                    p,
                    minute,
                );
            assert(frontier[q.1 as int]@[q.0 as int]);
        }
        if p.0 < width && p.1 < height && next[p.1 as int]@[p.0 as int] {
            let (px, py) = choose|px: int, py: int|
                0 <= px < width && 0 <= py < height && #[trigger] frontier[py]@[px] && can_go(
                    all_blizzards,
                    walls,
                    width,
                    height,
                    (px as usize, py as usize),
                    p,
                    minute,
                );
            let q = (px as usize, py as usize);
            assert(before.contains(q));
        }
    }
}

/// Once one can be nowhere, one can be nowhere for ever after.
pub proof fn lemma_stuck(
    all_blizzards: Seq<Blizzards>,
    walls: Seq<Vec<bool>>,
    width: int,
    height: int,
    start: (usize, usize),
    start_min: int,
    minute: int,
    later: int,
)
    requires
        start_min <= minute <= later,
        forall|p: (usize, usize)|
            p.0 < width && p.1 < height ==> !#[trigger] places(
                all_blizzards,
                walls,
                width,
                height,
                start,
                start_min,
                minute,
            ).contains(p),
    ensures
        forall|p: (usize, usize)|
            minute < later ==> !#[trigger] places(
                all_blizzards,
                walls,
                width,
                height,
                start,
                start_min,
                later,
            ).contains(p),
        forall|p: (usize, usize)|
            p.0 < width && p.1 < height ==> !#[trigger] places(
                all_blizzards,
                walls,
                width,
                height,
                start,
                start_min,
                later,
            ).contains(p),
    decreases later - minute,
{
    if later > minute {
        lemma_stuck(all_blizzards, walls, width, height, start, start_min, minute, later - 1);
        let before = places(all_blizzards, walls, width, height, start, start_min, later - 1);
        let now = places(all_blizzards, walls, width, height, start, start_min, later);
        assert forall|p: (usize, usize)| !#[trigger] now.contains(p) by {
            if now.contains(p) {
                let q = choose|q: (usize, usize)|
                    #[trigger] before.contains(q) && q.0 < width && q.1 < height && can_go(
                        all_blizzards,
                        walls,
                        width,
                        height,
                        q,
                        p,
                        later - 1,
                    );
                assert(!before.contains(q));
            }
        }
    }
}

/// The first minute, not before `start_min`, during which one can come to
/// `end_coord`, having been at `start_coord` at the start of minute
/// `start_min`; `None` if there is no such minute.
pub fn time_to_move_between(
    start_coord: &(usize, usize),
    end_coord: &(usize, usize),
    all_blizzards: &Vec<Blizzards>,
    walls: &Vec<Vec<bool>>,
    width: usize,
    height: usize,
    start_min: usize,
) -> (found: Option<usize>)
    requires
        is_valley(all_blizzards@, walls@, width as int, height as int),
        start_coord.0 < width,
        start_coord.1 < height,
    ensures
        match found {
            Some(minute) => {
                &&& start_min <= minute
                &&& places(
                    all_blizzards@,
                    walls@,
                    width as int,
                    height as int,
                    *start_coord,
                    start_min as int,
                    minute + 1,
                ).contains(*end_coord)
                &&& forall|m: int|
                    start_min < m <= minute ==> !places(
                        all_blizzards@,
                        walls@,
                        width as int,
                        height as int,
                        *start_coord,
                        start_min as int,
                        m,
                    ).contains(*end_coord)
            },
            None => forall|m: int|
                start_min < m <= usize::MAX ==> !places(
                    all_blizzards@,
                    walls@,
                    width as int,
                    height as int,
                    *start_coord,
                    start_min as int,
                    m,
                ).contains(*end_coord),
        },
{
    let mut frontier = blank_layer(width, height);
    frontier[start_coord.1][start_coord.0] = true;
    let mut minute = start_min;
    let ghost all = all_blizzards@;
    let ghost w = width as int;
    let ghost h = height as int;
    while minute < usize::MAX
        invariant
            start_min <= minute,
            all == all_blizzards@,
            w == width,
            h == height,
            is_valley(all, walls@, w, h),
            is_layer(frontier@, w, h),
            marks_places(
                frontier@,
                w,
                h,
                places(all, walls@, w, h, *start_coord, start_min as int, minute as int),
            ),
            forall|m: int|
                start_min < m <= minute ==> !places(
                    all,
                    walls@,
                    w,
                    h,
                    *start_coord,
                    start_min as int,
                    m,
                ).contains(*end_coord),
        decreases usize::MAX - minute,
    {
        let next = later_layer(&frontier, all_blizzards, walls, width, height, minute);
        proof {
            lemma_later_layer(
                all,
                walls@,
                w,
                h,
                *start_coord,
                start_min as int,
                frontier@,
                next@,
                minute as int,
            );
        }
        let reached = end_coord.0 < width && end_coord.1 < height && next[end_coord.1][end_coord.0];
        if reached {
            return Some(minute);
        }
        if !any_marked(&next, width, height) {
            assert forall|m: int| minute + 1 < m implies !places(
                all,
                walls@,
                w,
                h,
                *start_coord,
                start_min as int,
                m,
            ).contains(*end_coord) by {
                lemma_stuck(all, walls@, w, h, *start_coord, start_min as int, minute + 1, m);
            }
            return None;
        }
        frontier = next;
        minute += 1;
    }
    None
}

} // verus!
