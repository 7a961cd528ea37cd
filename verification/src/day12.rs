//! Shortest ways over a field of heights on which a step may climb down
//! by at most one.

use vstd::prelude::*;

pub mod field;

verus! {

/// A place of the field: where it lies, how high it is, and how many
/// steps it takes to come there, -1 while that is not known.
#[derive(Debug, Clone, Copy, PartialEq, Eq)]
pub struct GridCell {
    pub coord: (usize, usize),
    pub height: u8,
    pub dist: i32,
}

/// The heights of the places of a field, row by row.
pub open spec fn heights_of(grid: Seq<Vec<GridCell>>) -> Seq<Seq<u8>> {
    Seq::new(grid.len(), |y: int| Seq::new(grid[y]@.len(), |x: int| grid[y]@[x].height))
}

/// The field is a rectangle, every place knows where it lies, and no way
/// over it is too long for the machine's integers.
pub open spec fn is_field(grid: Seq<Vec<GridCell>>) -> bool {
    &&& grid.len() > 0
    &&& grid[0]@.len() > 0
    &&& grid.len() <= i32::MAX
    &&& grid[0]@.len() <= i32::MAX
    &&& forall|y: int| 0 <= y < grid.len() ==> (#[trigger] grid[y])@.len() == grid[0]@.len()
    &&& forall|x: int, y: int|
        0 <= y < grid.len() && 0 <= x < grid[0]@.len() ==> (#[trigger] grid[y]@[x]).coord == (
            x as usize,
            y as usize,
        )
}

/// Whether the place lies on the field.
pub open spec fn on_field(h: Seq<Seq<u8>>, c: (usize, usize)) -> bool {
    c.1 < h.len() && c.0 < h[0].len()
}

/// Whether the two places lie side by side.
pub open spec fn beside(a: (usize, usize), b: (usize, usize)) -> bool {
    (a.1 == b.1 && (a.0 + 1 == b.0 || b.0 + 1 == a.0)) || (a.0 == b.0 && (a.1 + 1 == b.1 || b.1 + 1
        == a.1))
}

/// Whether one step leads from `from` to `to`: they lie side by side on
/// the field, and `to` is lower by one at most.
pub open spec fn can_step(h: Seq<Seq<u8>>, from: (usize, usize), to: (usize, usize)) -> bool {
    &&& on_field(h, from)
    &&& on_field(h, to)
    &&& beside(from, to)
    &&& h[to.1 as int][to.0 as int] + 1 >= h[from.1 as int][from.0 as int]
}

/// The places that at most `t` steps lead to from `start`.
pub open spec fn within(h: Seq<Seq<u8>>, start: (usize, usize), t: int) -> Set<(usize, usize)>
    decreases t,
{
    if t <= 0 {
        if t == 0 {
            set![start]
        } else {
            Set::empty()
        }
    } else {
        let before = within(h, start, t - 1);
        Set::new(
            |c: (usize, usize)|
                before.contains(c) || exists|p: (usize, usize)|
                    #[trigger] before.contains(p) && can_step(h, p, c),
        )
    }
}

/// Whether `d` is the number of steps of the shortest way from `start` to
/// `c`, or -1 where fewer than `horizon` steps lead to `c` by no way.
pub open spec fn is_distance(
    h: Seq<Seq<u8>>,
    start: (usize, usize),
    c: (usize, usize),
    d: int,
    horizon: int,
) -> bool {
    if d < 0 {
        d == -1 && forall|t: int| t < horizon ==> !within(h, start, t).contains(c)
    } else {
        within(h, start, d).contains(c) && !within(h, start, d - 1).contains(c)
    }
}

/// What is known after `t` rounds: the places marked are those that at
/// most `t` steps lead to, each marked with the steps of its shortest way.
pub open spec fn known(grid: Seq<Vec<GridCell>>, start: (usize, usize), t: int) -> bool {
    forall|x: int, y: int|
        0 <= y < grid.len() && 0 <= x < grid[0]@.len() ==> {
            let cell = #[trigger] grid[y]@[x];
            &&& -1 <= cell.dist <= t
            &&& cell.dist >= 0 <==> within(heights_of(grid), start, t).contains(
                (x as usize, y as usize),
            )
            &&& cell.dist >= 0 ==> is_distance(
                heights_of(grid),
                start,
                (x as usize, y as usize),
                cell.dist as int,
                0,
            )
        }
}

/// What a way of few steps leads to, a way of more steps leads to.
pub proof fn lemma_within_grows(h: Seq<Seq<u8>>, start: (usize, usize), s: int, t: int)
    requires
        s <= t,
    ensures
        within(h, start, s).subset_of(within(h, start, t)),
    decreases t - s,
{
    if s < t {
        lemma_within_grows(h, start, s, t - 1);
        if t > 0 {
            assert(within(h, start, t - 1).subset_of(within(h, start, t)));
        }
    }
}

/// Every place that some steps lead to lies on the field, if the start
/// does.
pub proof fn lemma_within_on_field(h: Seq<Seq<u8>>, start: (usize, usize), t: int)
    requires
        on_field(h, start),
    ensures
        forall|c: (usize, usize)| #[trigger] within(h, start, t).contains(c) ==> on_field(h, c),
    decreases t,
{
    if t > 0 {
        lemma_within_on_field(h, start, t - 1);
        let before = within(h, start, t - 1);
        assert forall|c: (usize, usize)| #[trigger] within(h, start, t).contains(c) implies on_field(
            h,
            c,
        ) by {
            if !before.contains(c) {
                let p = choose|p: (usize, usize)| #[trigger] before.contains(p) && can_step(h, p, c);
            }
        }
    }
}

/// Once a round has found no new place, none is ever found.
pub proof fn lemma_nothing_new(h: Seq<Seq<u8>>, start: (usize, usize), t: int, u: int)
    requires
        0 <= t <= u,
        within(h, start, t + 1) =~= within(h, start, t),
    ensures
        within(h, start, u) =~= within(h, start, t),
    decreases u - t,
{
    if u > t {
        lemma_nothing_new(h, start, t, u - 1);
        let before = within(h, start, u - 1);
        assert forall|c: (usize, usize)| within(h, start, u).contains(c) implies within(
            h,
            start,
            t,
        ).contains(c) by {
            if !before.contains(c) {
                let p = choose|p: (usize, usize)| #[trigger] before.contains(p) && can_step(h, p, c);
                assert(within(h, start, t).contains(p));
                assert(within(h, start, t + 1).contains(c));
            }
        }
        lemma_within_grows(h, start, t, u);
    }
}

/// The number written at the place.
pub open spec fn dist_at(grid: Seq<Vec<GridCell>>, c: (usize, usize)) -> int {
    grid[c.1 as int]@[c.0 as int].dist as int
}

/// The list holds the places marked with `t`, and no others.
pub open spec fn lists_marked(list: Seq<(usize, usize)>, grid: Seq<Vec<GridCell>>, t: int) -> bool {
    forall|c: (usize, usize)|
        #[trigger] list.contains(c) <==> on_field(heights_of(grid), c) && dist_at(grid, c) == t
}

/// The field `after` is the field `before` but that the places in `fresh`
/// that were not marked are marked with `mark`.
pub open spec fn marked(
    before: Seq<Vec<GridCell>>,
    after: Seq<Vec<GridCell>>,
    fresh: Set<(usize, usize)>,
    mark: int,
) -> bool {
    &&& is_field(after)
    &&& heights_of(after) == heights_of(before)
    &&& forall|c: (usize, usize)|
        on_field(heights_of(before), c) ==> #[trigger] dist_at(after, c) == if dist_at(before, c)
            == -1 && fresh.contains(c) {
            mark
        } else {
            dist_at(before, c)
        }
}

/// Marks the place `to` with `mark` and lists it, if it is not marked and
/// one step leads to it from `from`.
pub fn mark_if_new(
    grid: &mut Vec<Vec<GridCell>>,
    next: &mut Vec<(usize, usize)>,
    from: (usize, usize),
    to: (usize, usize),
    mark: i32,
)
    requires
        is_field(old(grid)@),
        on_field(heights_of(old(grid)@), from),
        on_field(heights_of(old(grid)@), to),
        beside(from, to),
        mark >= 0,
        lists_marked(old(next)@, old(grid)@, mark as int),
    ensures
        marked(
            old(grid)@,
            final(grid)@,
            Set::new(|c: (usize, usize)| c == to && can_step(heights_of(old(grid)@), from, c)),
            mark as int,
        ),
        lists_marked(final(next)@, final(grid)@, mark as int),
{
    let ghost before = grid@;
    let ghost listed = next@;
    let cell = grid[from.1][from.0];
    let neighbour = grid[to.1][to.0];
    if neighbour.height as u16 + 1 >= cell.height as u16 && neighbour.dist == -1 {
        let mut changed = neighbour;
        changed.dist = mark;
        grid[to.1][to.0] = changed;
        next.push(to);
        proof {
            assert(heights_of(grid@) =~~= heights_of(before));
            assert forall|c: (usize, usize)| #[trigger]
                next@.contains(c) <==> on_field(heights_of(grid@), c) && dist_at(grid@, c)
                    == mark by {
                if c == to {
                    assert(next@[next@.len() - 1] == c);
                } else {
                    if listed.contains(c) {
                        let i = choose|i: int| 0 <= i < listed.len() && listed[i] == c;
                        assert(next@[i] == c);
                    }
                    if next@.contains(c) {
                        let i = choose|i: int| 0 <= i < next@.len() && next@[i] == c;
                        assert(listed[i] == c);
                    }
                }
            }
        }
    } else {
        proof {
            assert(heights_of(grid@) =~~= heights_of(before));
        }
    }
}

/// Marks the places around `from` that are not marked and that one step
/// leads to from `from`, and lists them.
pub fn mark_around(
    grid: &mut Vec<Vec<GridCell>>,
    next: &mut Vec<(usize, usize)>,
    from: (usize, usize),
    mark: i32,
)
    requires
        is_field(old(grid)@),
        on_field(heights_of(old(grid)@), from),
        mark >= 0,
        lists_marked(old(next)@, old(grid)@, mark as int),
    ensures
        marked(
            old(grid)@,
            final(grid)@,
            Set::new(|c: (usize, usize)| can_step(heights_of(old(grid)@), from, c)),
            mark as int,
        ),
        lists_marked(final(next)@, final(grid)@, mark as int),
{
    let ghost h = heights_of(grid@);
    let ghost before = grid@;
    if from.0 > 0 {
        mark_if_new(grid, next, from, (from.0 - 1, from.1), mark);
    }
    let ghost one = grid@;
    if from.1 > 0 {
        mark_if_new(grid, next, from, (from.0, from.1 - 1), mark);
    }
    let ghost two = grid@;
    if from.0 + 1 < grid[0].len() {
        mark_if_new(grid, next, from, (from.0 + 1, from.1), mark);
    }
    let ghost three = grid@;
    if from.1 + 1 < grid.len() {
        mark_if_new(grid, next, from, (from.0, from.1 + 1), mark);
    }
    proof {
        assert forall|c: (usize, usize)| on_field(h, c) implies #[trigger] dist_at(grid@, c)
            == if dist_at(before, c) == -1 && can_step(h, from, c) {
            mark as int
        } else {
            dist_at(before, c)
        } by {
            assert(dist_at(one, c) == dist_at(one, c));
            assert(dist_at(two, c) == dist_at(two, c));
            assert(dist_at(three, c) == dist_at(three, c));
        }
    }
}

/// One round: marks with `t + 1` the places that are not marked and that
/// one step leads to from a place marked with `t`, and lists them.
pub fn expand(grid: &mut Vec<Vec<GridCell>>, frontier: &Vec<(usize, usize)>, t: i32) -> (next: Vec<
    (usize, usize),
>)
    requires
        is_field(old(grid)@),
        0 <= t < i32::MAX,
        lists_marked(frontier@, old(grid)@, t as int),
        forall|c: (usize, usize)|
            on_field(heights_of(old(grid)@), c) ==> #[trigger] dist_at(old(grid)@, c) <= t,
    ensures
        marked(
            old(grid)@,
            final(grid)@,
            Set::new(
                |c: (usize, usize)|
                    exists|p: (usize, usize)|
                        #[trigger] frontier@.contains(p) && can_step(heights_of(old(grid)@), p, c),
            ),
            t + 1,
        ),
        lists_marked(next@, final(grid)@, t + 1),
{
    let ghost before = grid@;
    let ghost h = heights_of(grid@);
    let mut next: Vec<(usize, usize)> = Vec::new();
    let mut i: usize = 0;
    while i < frontier.len()
        invariant
            i <= frontier@.len(),
            0 <= t < i32::MAX,
            is_field(before),
            h == heights_of(before),
            lists_marked(frontier@, before, t as int),
            forall|c: (usize, usize)| on_field(h, c) ==> #[trigger] dist_at(before, c) <= t,
            marked(
                before,
                grid@,
                Set::new(
                    |c: (usize, usize)|
                        exists|j: int| 0 <= j < i && can_step(h, #[trigger] frontier@[j], c),
                ),
                t + 1,
            ),
            lists_marked(next@, grid@, t + 1),
        decreases frontier@.len() - i,
    {
        let from = frontier[i];
        let ghost mid = grid@;
        assert(frontier@.contains(from));
        mark_around(grid, &mut next, from, t + 1);
        proof {
            assert forall|c: (usize, usize)| on_field(h, c) implies #[trigger] dist_at(grid@, c)
                == if dist_at(before, c) == -1 && (exists|j: int|
                0 <= j < i + 1 && can_step(h, #[trigger] frontier@[j], c)) {
                t + 1
            } else {
                dist_at(before, c)
            } by {
                assert(dist_at(mid, c) == dist_at(mid, c));
                if can_step(h, from, c) {
                    assert(can_step(h, frontier@[i as int], c));
                }
                if exists|j: int| 0 <= j < i + 1 && can_step(h, #[trigger] frontier@[j], c) {
                    let j = choose|j: int| 0 <= j < i + 1 && can_step(h, #[trigger] frontier@[j], c);
                    if j < i {
                        assert(exists|j: int| 0 <= j < i && can_step(h, #[trigger] frontier@[j], c));
                    }
                }
            }
        }
        i += 1;
    }
    proof {
        assert forall|c: (usize, usize)| on_field(h, c) implies #[trigger] dist_at(grid@, c)
            == if dist_at(before, c) == -1 && (exists|p: (usize, usize)|
            #[trigger] frontier@.contains(p) && can_step(h, p, c)) {
            t + 1
        } else {
            dist_at(before, c)
        } by {
            if exists|p: (usize, usize)| #[trigger] frontier@.contains(p) && can_step(h, p, c) {
                let p = choose|p: (usize, usize)| #[trigger]
                    frontier@.contains(p) && can_step(h, p, c);
                let j = choose|j: int| 0 <= j < frontier@.len() && frontier@[j] == p;
                assert(can_step(h, frontier@[j], c));
            }
            if exists|j: int| 0 <= j < i && can_step(h, #[trigger] frontier@[j], c) {
                let j = choose|j: int| 0 <= j < i && can_step(h, #[trigger] frontier@[j], c);
                assert(frontier@.contains(frontier@[j]));
            }
        }
    }
    next
}

/// A round brings what is known for `t` steps to what is known for one
/// step more.
pub proof fn lemma_round(
    before: Seq<Vec<GridCell>>,
    after: Seq<Vec<GridCell>>,
    frontier: Seq<(usize, usize)>,
    start: (usize, usize),
    t: int,
)
    requires
        0 <= t,
        is_field(before),
        on_field(heights_of(before), start),
        known(before, start, t),
        lists_marked(frontier, before, t),
        marked(
            before,
            after,
            Set::new(
                |c: (usize, usize)|
                    exists|p: (usize, usize)|
                        #[trigger] frontier.contains(p) && can_step(heights_of(before), p, c),
            ),
            t + 1,
        ),
    ensures
        known(after, start, t + 1),
{
    let h = heights_of(before);
    lemma_within_on_field(h, start, t);
    lemma_within_grows(h, start, t, t + 1);
    assert forall|x: int, y: int| 0 <= y < after.len() && 0 <= x < after[0]@.len() implies {
        let cell = #[trigger] after[y]@[x];
        &&& -1 <= cell.dist <= t + 1
        &&& cell.dist >= 0 <==> within(heights_of(after), start, t + 1).contains(
            (x as usize, y as usize),
        )
        &&& cell.dist >= 0 ==> is_distance(
            heights_of(after),
            start,
            (x as usize, y as usize),
            cell.dist as int,
            0,
        )
    } by {
        let c = (x as usize, y as usize);
        assert(on_field(h, c));
        let old_cell = before[y]@[x];
        assert(dist_at(after, c) == after[y]@[x].dist);
        assert(dist_at(before, c) == old_cell.dist);
        if old_cell.dist == -1 {
            assert(!within(h, start, t).contains(c));
            if within(h, start, t + 1).contains(c) {
                let p = choose|p: (usize, usize)| #[trigger]
                    within(h, start, t).contains(p) && can_step(h, p, c);
                assert(on_field(h, p));
                let d = before[p.1 as int]@[p.0 as int].dist;
                assert(dist_at(before, p) == d);
                assert(d >= 0);
                if d < t {
                    assert(within(h, start, d as int).contains(p));
                    assert(within(h, start, d + 1).contains(c));
                    lemma_within_grows(h, start, d + 1, t);
                } else {
                    assert(frontier.contains(p));
                }
            }
            if exists|p: (usize, usize)| #[trigger] frontier.contains(p) && can_step(h, p, c) {
                let p = choose|p: (usize, usize)| #[trigger] frontier.contains(p) && can_step(h, p, c);
                assert(dist_at(before, p) == before[p.1 as int]@[p.0 as int].dist);
                assert(within(h, start, t).contains(p));
                assert(within(h, start, t + 1).contains(c));
            }
        }
    }
}

/// Writes at every place of the field the number of steps of the shortest
/// way to it from `start`, and leaves -1 where no way leads.
pub fn calculate_shortest_paths(grid: &mut Vec<Vec<GridCell>>, start: &(usize, usize))
    requires
        is_field(old(grid)@),
        on_field(heights_of(old(grid)@), *start),
        forall|c: (usize, usize)|
            on_field(heights_of(old(grid)@), c) ==> #[trigger] dist_at(old(grid)@, c) == -1,
    ensures
        is_field(final(grid)@),
        heights_of(final(grid)@) == heights_of(old(grid)@),
        forall|c: (usize, usize)|
            on_field(heights_of(old(grid)@), c) ==> is_distance(
                heights_of(old(grid)@),
                *start,
                c,
                #[trigger] dist_at(final(grid)@, c),
                i32::MAX as int,
            ),
{
    let ghost h = heights_of(grid@);
    let ghost blank = grid@;
    let mut first = grid[start.1][start.0];
    first.dist = 0;
    grid[start.1][start.0] = first;
    let mut frontier: Vec<(usize, usize)> = Vec::new();
    frontier.push(*start);
    let mut t: i32 = 0;
    proof {
        assert(heights_of(grid@) =~~= h);
        assert forall|c: (usize, usize)| #[trigger]
            frontier@.contains(c) <==> on_field(h, c) && dist_at(grid@, c) == 0 by {
            if c == *start {
                assert(frontier@[0] == c);
            } else if on_field(h, c) {
                assert(dist_at(blank, c) == -1);
            }
        }
        assert forall|x: int, y: int| 0 <= y < grid@.len() && 0 <= x < grid@[0]@.len() implies {
            let cell = #[trigger] grid@[y]@[x];
            &&& -1 <= cell.dist <= 0
            &&& cell.dist >= 0 <==> within(h, *start, 0).contains((x as usize, y as usize))
            &&& cell.dist >= 0 ==> is_distance(h, *start, (x as usize, y as usize), cell.dist as int, 0)
        } by {
            let c = (x as usize, y as usize);
            if c != *start {
                assert(dist_at(blank, c) == -1);
            }
        }
    }
    while frontier.len() > 0 && t < i32::MAX - 1
        invariant
            0 <= t < i32::MAX,
            is_field(grid@),
            h == heights_of(grid@),
            h == heights_of(old(grid)@),
            on_field(h, *start),
            known(grid@, *start, t as int),
            lists_marked(frontier@, grid@, t as int),
        decreases i32::MAX - t,
    {
        let ghost before = grid@;
        proof {
            assert forall|c: (usize, usize)| on_field(h, c) implies #[trigger] dist_at(grid@, c)
                <= t by {
                assert(grid@[c.1 as int]@[c.0 as int].dist <= t);
            }
        }
        let next = expand(grid, &frontier, t);
        proof {
            lemma_round(before, grid@, frontier@, *start, t as int);
        }
        frontier = next;
        t += 1;
    }
    proof {
        assert forall|c: (usize, usize)| on_field(h, c) implies is_distance(
            h,
            *start,
            c,
            #[trigger] dist_at(grid@, c),
            i32::MAX as int,
        ) by {
            let cell = grid@[c.1 as int]@[c.0 as int];
            assert(dist_at(grid@, c) == cell.dist);
            if cell.dist == -1 {
                assert(!within(h, *start, t as int).contains(c));
                assert forall|u: int| u < i32::MAX implies !within(h, *start, u).contains(c) by {
                    if u <= t {
                        lemma_within_grows(h, *start, u, t as int);
                    } else {
                        assert(frontier@.len() == 0);
                        lemma_settled(grid@, frontier@, *start, t as int);
                        lemma_nothing_new(h, *start, t - 1, u);
                        lemma_within_grows(h, *start, t - 1, t as int);
                    }
                }
            }
        }
    }
}

/// Where no place is marked with the last round, that round found no new
/// place.
pub proof fn lemma_settled(
    grid: Seq<Vec<GridCell>>,
    frontier: Seq<(usize, usize)>,
    start: (usize, usize),
    t: int,
)
    requires
        0 <= t,
        is_field(grid),
        on_field(heights_of(grid), start),
        known(grid, start, t),
        lists_marked(frontier, grid, t),
        frontier.len() == 0,
    ensures
        t >= 1,
        within(heights_of(grid), start, t) =~= within(heights_of(grid), start, t - 1),
{
    let h = heights_of(grid);
    lemma_within_on_field(h, start, t);
    if t == 0 {
        assert(within(h, start, 0).contains(start));
        assert(grid[start.1 as int]@[start.0 as int].dist >= 0);
        assert(dist_at(grid, start) == 0);
        assert(frontier.contains(start));
    } else {
        lemma_within_grows(h, start, t - 1, t);
        assert forall|c: (usize, usize)| within(h, start, t).contains(c) implies within(
            h,
            start,
            t - 1,
        ).contains(c) by {
            let d = grid[c.1 as int]@[c.0 as int].dist;
            assert(d >= 0);
            assert(dist_at(grid, c) == d);
            if d == t {
                assert(frontier.contains(c));
            } else {
                lemma_within_grows(h, start, d as int, t - 1);
            }
        }
    }
}

} // verus!
