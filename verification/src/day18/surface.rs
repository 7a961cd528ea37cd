//! The surface of a droplet of unit cubes: all of it, and the part that
//! the air around the droplet reaches.

use vstd::prelude::*;
use vstd::arithmetic::div_mod::lemma_fundamental_div_mod_converse;
use vstd::set_lib::{lemma_int_range, lemma_len_subset, set_int_range};
use crate::day18::{bounds_with_margin, expanded_bounding_box, Coord, Cuboid};

verus! {

/// The neighbour `k` of the point, in the order in which
/// `Coord::neighbours` lists them.
pub open spec fn beside(c: Coord, k: int) -> Coord {
    if k == 0 {
        Coord((c.0 - 1) as isize, c.1, c.2)
    } else if k == 1 {
        Coord((c.0 + 1) as isize, c.1, c.2)
    } else if k == 2 {
        Coord(c.0, (c.1 - 1) as isize, c.2)
    } else if k == 3 {
        Coord(c.0, (c.1 + 1) as isize, c.2)
    } else if k == 4 {
        Coord(c.0, c.1, (c.2 - 1) as isize)
    } else {
        Coord(c.0, c.1, (c.2 + 1) as isize)
    }
}

/// How many of the first `k` neighbours of the point are cubes, if `hit`
/// is true, or are none, if it is false.
pub open spec fn faces(cubes: Seq<Coord>, c: Coord, hit: bool, k: int) -> nat
    decreases k,
{
    if k <= 0 {
        0
    } else {
        faces(cubes, c, hit, k - 1) + if cubes.contains(beside(c, k - 1)) == hit {
            1nat
        } else {
            0nat
        }
    }
}

/// The sum of `faces` over the first `n` of the cells.
pub open spec fn faces_total(cubes: Seq<Coord>, cells: Seq<Coord>, hit: bool, n: int) -> nat
    decreases n,
{
    if n <= 0 {
        0
    } else {
        faces_total(cubes, cells, hit, n - 1) + faces(cubes, cells[n - 1], hit, 6)
    }
}

/// Whether the point lies in the box and is no cube.
pub open spec fn is_air(cubes: Seq<Coord>, b: Cuboid, c: Coord) -> bool {
    b.holds(c) && !cubes.contains(c)
}

/// The points that air reaches in at most `n` steps from the least corner
/// of the box, going from a point to a neighbour within the box that is no
/// cube.
pub open spec fn flooded(cubes: Seq<Coord>, b: Cuboid, n: nat) -> Set<Coord>
    decreases n,
{
    if n == 0 {
        set![Coord(b.0.0, b.1.0, b.2.0)]
    } else {
        let before = flooded(cubes, b, (n - 1) as nat);
        Set::new(
            |c: Coord|
                before.contains(c) || (is_air(cubes, b, c) && exists|q: Coord, k: int|
                    before.contains(q) && 0 <= k < 6 && #[trigger] beside(q, k) == c),
        )
    }
}

/// Whether air reaches the point from the least corner of the box.
pub open spec fn outside(cubes: Seq<Coord>, b: Cuboid, c: Coord) -> bool {
    exists|n: nat| (#[trigger] flooded(cubes, b, n)).contains(c)
}

/// Whether every point of the box is away from the edge of the machine's
/// integers.
pub open spec fn roomy(b: Cuboid) -> bool {
    &&& isize::MIN < b.0.0 && b.0.1 < isize::MAX
    &&& isize::MIN < b.1.0 && b.1.1 < isize::MAX
    &&& isize::MIN < b.2.0 && b.2.1 < isize::MAX
}

/// The number of points of the box.
pub open spec fn volume(b: Cuboid) -> int {
    (b.0.1 - b.0.0 + 1) * (b.1.1 - b.1.0 + 1) * (b.2.1 - b.2.0 + 1)
}

/// The place of a point of the box when its points are counted row by row
/// and layer by layer.
pub open spec fn place_in(b: Cuboid, c: Coord) -> int {
    ((c.0 - b.0.0) * (b.1.1 - b.1.0 + 1) + (c.1 - b.1.0)) * (b.2.1 - b.2.0 + 1) + (c.2 - b.2.0)
}

/// Each point of the box has a place of its own below the volume.
pub proof fn lemma_place_in(b: Cuboid, c: Coord, d: Coord)
    requires
        b.holds(c),
        b.holds(d),
    ensures
        0 <= place_in(b, c) < volume(b),
        place_in(b, c) == place_in(b, d) ==> c == d,
{
    let w = b.0.1 - b.0.0 + 1;
    let h = b.1.1 - b.1.0 + 1;
    let l = b.2.1 - b.2.0 + 1;
    let (cx, cy, cz) = (c.0 - b.0.0, c.1 - b.1.0, c.2 - b.2.0);
    let (dx, dy, dz) = (d.0 - b.0.0, d.1 - b.1.0, d.2 - b.2.0);
    assert(0 <= cx * h + cy < w * h) by (nonlinear_arith)
        requires
            0 <= cx < w,
            0 <= cy < h,
    ;
    assert(0 <= (cx * h + cy) * l + cz < w * h * l) by (nonlinear_arith)
        requires
            0 <= cx * h + cy < w * h,
            0 <= cz < l,
    ;
    if place_in(b, c) == place_in(b, d) {
        lemma_fundamental_div_mod_converse(place_in(b, c), l, cx * h + cy, cz);
        lemma_fundamental_div_mod_converse(place_in(b, d), l, dx * h + dy, dz);
        lemma_fundamental_div_mod_converse(cx * h + cy, h, cx, cy);
        lemma_fundamental_div_mod_converse(dx * h + dy, h, dx, dy);
    }
}

/// Points of the box of which none is listed twice are no more than the
/// box holds.
pub proof fn lemma_cells_fit(b: Cuboid, cells: Seq<Coord>)
    requires
        cells.len() > 0,
        cells.no_duplicates(),
        forall|i: int| 0 <= i < cells.len() ==> b.holds(#[trigger] cells[i]),
    ensures
        cells.len() <= volume(b),
{
    let codes = Seq::new(cells.len(), |i: int| place_in(b, cells[i]));
    assert forall|i: int, j: int| 0 <= i < codes.len() && 0 <= j < codes.len() && i != j implies codes[i]
        != codes[j] by {
        lemma_place_in(b, cells[i], cells[j]);
    }
    codes.unique_seq_to_set();
    lemma_place_in(b, cells[0], cells[0]);
    lemma_int_range(0, volume(b));
    assert forall|x: int| codes.to_set().contains(x) implies set_int_range(0, volume(b)).contains(
        x,
    ) by {
        let i = choose|i: int| 0 <= i < codes.len() && codes[i] == x;
        lemma_place_in(b, cells[i], cells[i]);
    }
    lemma_len_subset(codes.to_set(), set_int_range(0, volume(b)));
}

/// Whether the point is among the cubes.
pub fn has_cube(cubes: &Vec<Coord>, c: &Coord) -> (yes: bool)
    ensures
        yes == cubes@.contains(*c),
{
    let mut i: usize = 0;
    while i < cubes.len()
        invariant
            i <= cubes@.len(),
            forall|k: int| 0 <= k < i ==> cubes@[k] != *c,
        decreases cubes@.len() - i,
    {
        let cube = cubes[i];
        if cube.0 == c.0 && cube.1 == c.1 && cube.2 == c.2 {
            return true;
        }
        i += 1;
    }
    false
}

/// How many of the six neighbours of the point are cubes, if `hit` is
/// true, or are none, if it is false.
pub fn count_faces(cubes: &Vec<Coord>, c: &Coord, hit: bool) -> (count: usize)
    requires
        c.inner(),
    ensures
        count == faces(cubes@, *c, hit, 6),
        count <= 6,
{
    let around = c.neighbours();
    let mut count: usize = 0;
    let mut k: usize = 0;
    while k < 6
        invariant
            k <= 6,
            count <= k,
            count == faces(cubes@, *c, hit, k as int),
            forall|j: int| 0 <= j < 6 ==> around@[j] == beside(*c, j),
        decreases 6 - k,
    {
        if has_cube(cubes, &around[k]) == hit {
            count += 1;
        }
        k += 1;
    }
    count
}

/// The number of sides of the listed cubes that face no cube.
pub fn surface_area(cubes: &Vec<Coord>) -> (area: u128)
    requires
        forall|i: int| 0 <= i < cubes@.len() ==> (#[trigger] cubes@[i]).inner(),
    ensures
        area == faces_total(cubes@, cubes@, false, cubes@.len() as int),
{
    let mut area: u128 = 0;
    let mut i: usize = 0;
    while i < cubes.len()
        invariant
            i <= cubes@.len(),
            forall|k: int| 0 <= k < cubes@.len() ==> (#[trigger] cubes@[k]).inner(),
            area == faces_total(cubes@, cubes@, false, i as int),
            area <= 6 * i,
        decreases cubes@.len() - i,
    {
        area = area + count_faces(cubes, &cubes[i], false) as u128;
        i += 1;
    }
    area
}

/// The cubes without those that are listed more than once.
pub fn distinct(list: &Vec<Coord>) -> (cubes: Vec<Coord>)
    ensures
        cubes@.no_duplicates(),
        forall|c: Coord| cubes@.contains(c) <==> list@.contains(c),
{
    let mut cubes: Vec<Coord> = Vec::new();
    let mut i: usize = 0;
    while i < list.len()
        invariant
            i <= list@.len(),
            cubes@.no_duplicates(),
            forall|k: int| 0 <= k < cubes@.len() ==> list@.contains(#[trigger] cubes@[k]),
            forall|j: int| 0 <= j < i ==> cubes@.contains(#[trigger] list@[j]),
        decreases list@.len() - i,
    {
        let ghost before = cubes@;
        let c = list[i];
        if !has_cube(&cubes, &c) {
            cubes.push(c);
            assert(cubes@[before.len() as int] == c);
        }
        proof {
            assert forall|j: int| 0 <= j < i + 1 implies cubes@.contains(#[trigger] list@[j]) by {
                if j < i {
                    let k = choose|k: int| 0 <= k < before.len() && before[k] == list@[j];
                    assert(cubes@[k] == list@[j]);
                }
            }
        }
        i += 1;
    }
    proof {
        assert forall|c: Coord| cubes@.contains(c) <==> list@.contains(c) by {
            if list@.contains(c) {
                let j = choose|j: int| 0 <= j < list@.len() && list@[j] == c;
                assert(cubes@.contains(list@[j]));
            }
        }
    }
    cubes
}

/// What holds while air spreads from the least corner of the box: the cells
/// begin with that corner, none is listed twice, air reaches each of them,
/// and each neighbour in the air of the first `done` cells is listed.
pub open spec fn spreading(cubes: Seq<Coord>, b: Cuboid, cells: Seq<Coord>, done: int) -> bool {
    &&& cells.len() > 0
    &&& cells[0] == Coord(b.0.0, b.1.0, b.2.0)
    &&& cells.no_duplicates()
    &&& forall|i: int| 0 <= i < cells.len() ==> is_air(cubes, b, #[trigger] cells[i])
    &&& forall|i: int| 0 <= i < cells.len() ==> outside(cubes, b, #[trigger] cells[i])
    &&& forall|i: int, k: int|
        0 <= i < done && 0 <= k < 6 && is_air(cubes, b, #[trigger] beside(cells[i], k))
            ==> cells.contains(beside(cells[i], k))
}

/// One more cell that air reaches may be listed.
pub proof fn lemma_spread_on(cubes: Seq<Coord>, b: Cuboid, cells: Seq<Coord>, done: int, from: int, k: int)
    requires
        spreading(cubes, b, cells, done),
        done <= cells.len(),
        0 <= from < cells.len(),
        0 <= k < 6,
        is_air(cubes, b, beside(cells[from], k)),
        !cells.contains(beside(cells[from], k)),
    ensures
        spreading(cubes, b, cells.push(beside(cells[from], k)), done),
{
    let next = beside(cells[from], k);
    let more = cells.push(next);
    assert(outside(cubes, b, next)) by {
        let n = choose|n: nat| (#[trigger] flooded(cubes, b, n)).contains(cells[from]);
        assert(flooded(cubes, b, (n + 1) as nat).contains(next));
    }
    assert forall|i: int| 0 <= i < more.len() implies is_air(cubes, b, #[trigger] more[i])
        && outside(cubes, b, more[i]) by {
        if i < cells.len() {
            assert(more[i] == cells[i]);
        }
    }
    assert forall|i: int, j: int| 0 <= i < done && 0 <= j < 6 && is_air(
        cubes,
        b,
        #[trigger] beside(more[i], j),
    ) implies more.contains(beside(more[i], j)) by {
        assert(more[i] == cells[i]);
        let at = choose|at: int| 0 <= at < cells.len() && cells[at] == beside(cells[i], j);
        assert(more[at] == beside(cells[i], j));
    }
    assert(more.no_duplicates()) by {
        assert forall|i: int, j: int| 0 <= i < more.len() && 0 <= j < more.len() && i != j implies more[i]
            != more[j] by {
            if i < cells.len() && j < cells.len() {
                assert(cells[i] != cells[j]);
            } else if i < cells.len() {
                assert(cells.contains(cells[i]));
            } else {
                assert(cells.contains(cells[j]));
            }
        }
    }
}

/// Once the neighbours of every cell have been looked at, every point that
/// air reaches is listed.
pub proof fn lemma_spread_out(cubes: Seq<Coord>, b: Cuboid, cells: Seq<Coord>, n: nat, c: Coord)
    requires
        spreading(cubes, b, cells, cells.len() as int),
        flooded(cubes, b, n).contains(c),
    ensures
        cells.contains(c),
    decreases n,
{
    if n == 0 {
        assert(cells[0] == c);
    } else {
        let before = flooded(cubes, b, (n - 1) as nat);
        if before.contains(c) {
            lemma_spread_out(cubes, b, cells, (n - 1) as nat, c);
        } else {
            let (q, k) = choose|q: Coord, k: int|
                before.contains(q) && 0 <= k < 6 && #[trigger] beside(q, k) == c;
            lemma_spread_out(cubes, b, cells, (n - 1) as nat, q);
            let i = choose|i: int| 0 <= i < cells.len() && cells[i] == q;
            assert(is_air(cubes, b, beside(cells[i], k)));
        }
    }
}

/// Whether the cells are the points that air reaches from the least corner
/// of the box, each listed once.
pub open spec fn lists_outside(cubes: Seq<Coord>, b: Cuboid, cells: Seq<Coord>) -> bool {
    &&& cells.no_duplicates()
    &&& forall|c: Coord| cells.contains(c) <==> outside(cubes, b, c)
}

/// The points that air reaches from the least corner of the box, each
/// once.
pub fn flood(cubes: &Vec<Coord>, b: &Cuboid) -> (cells: Vec<Coord>)
    requires
        roomy(*b),
        is_air(cubes@, *b, Coord(b.0.0, b.1.0, b.2.0)),
    ensures
        lists_outside(cubes@, *b, cells@),
        forall|i: int| 0 <= i < cells@.len() ==> b.holds(#[trigger] cells@[i]),
{
    let mut cells: Vec<Coord> = Vec::new();
    cells.push(b.min_coord());
    proof {
        assert(flooded(cubes@, *b, 0).contains(cells@[0]));
    }
    let mut head: usize = 0;
    while head < cells.len()
        invariant
            head <= cells@.len(),
            roomy(*b),
            spreading(cubes@, *b, cells@, head as int),
        decreases volume(*b) - head,
    {
        proof {
            lemma_cells_fit(*b, cells@);
        }
        let c = cells[head];
        assert(is_air(cubes@, *b, cells@[head as int]));
        let around = c.neighbours();
        let mut k: usize = 0;
        while k < 6
            invariant
                k <= 6,
                head < cells@.len(),
                cells@[head as int] == c,
                spreading(cubes@, *b, cells@, head as int),
                forall|j: int| 0 <= j < 6 ==> around@[j] == beside(c, j),
                forall|j: int|
                    0 <= j < k && is_air(cubes@, *b, #[trigger] beside(c, j)) ==> cells@.contains(
                        beside(c, j),
                    ),
            decreases 6 - k,
        {
            let next = around[k];
            let ghost before = cells@;
            if b.contains(&next) && !has_cube(cubes, &next) && !has_cube(&cells, &next) {
                proof {
                    lemma_spread_on(cubes@, *b, before, head as int, head as int, k as int);
                }
                cells.push(next);
                assert(cells@[before.len() as int] == next);
            }
            proof {
                assert forall|j: int|
                    0 <= j < k + 1 && is_air(cubes@, *b, #[trigger] beside(c, j)) implies cells@.contains(
                    beside(c, j),
                ) by {
                    if j < k {
                        let at = choose|at: int|
                            0 <= at < before.len() && before[at] == beside(c, j);
                        assert(cells@[at] == beside(c, j));
                    } else if before.contains(next) {
                        let at = choose|at: int| 0 <= at < before.len() && before[at] == next;
                        assert(cells@[at] == next);
                    }
                }
            }
            k += 1;
        }
        head += 1;
    }
    proof {
        assert forall|c: Coord| cells@.contains(c) <==> outside(cubes@, *b, c) by {
            if outside(cubes@, *b, c) {
                let n = choose|n: nat| (#[trigger] flooded(cubes@, *b, n)).contains(c);
                lemma_spread_out(cubes@, *b, cells@, n, c);
            }
        }
    }
    cells
}

/// The number of sides of cubes that the air around the droplet reaches:
/// the sum, over the points that air reaches from the least corner of the
/// box around the cubes, of their neighbours that are cubes.
pub fn exterior_surface_area(cubes: &Vec<Coord>) -> (area: u128)
    requires
        cubes@.len() > 0,
        forall|i: int|
            0 <= i < cubes@.len() ==> isize::MIN + 1 < (#[trigger] cubes@[i]).0 < isize::MAX - 1
                && isize::MIN + 1 < cubes@[i].1 < isize::MAX - 1 && isize::MIN + 1 < cubes@[i].2
                < isize::MAX - 1,
    ensures
        exists|b: Cuboid, cells: Seq<Coord>|
            bounds_with_margin(cubes@, b) && #[trigger] lists_outside(cubes@, b, cells) && area
                == faces_total(cubes@, cells, true, cells.len() as int),
{
    assert forall|i: int| 0 <= i < cubes@.len() implies (#[trigger] cubes@[i]).inner() by {
        assert(isize::MIN + 1 < cubes@[i].0);
    }
    let bounding_box = expanded_bounding_box(cubes);
    proof {
        let corner = Coord(bounding_box.0.0, bounding_box.1.0, bounding_box.2.0);
        if cubes@.contains(corner) {
            let i = choose|i: int| 0 <= i < cubes@.len() && cubes@[i] == corner;
            assert(bounding_box.0.0 < cubes@[i].0);
        }
        let x0 = choose|i: int| 0 <= i < cubes@.len() && (#[trigger] cubes@[i]).0 == bounding_box.0.0 + 1;
        let x1 = choose|i: int| 0 <= i < cubes@.len() && (#[trigger] cubes@[i]).0 == bounding_box.0.1 - 1;
        let y0 = choose|i: int| 0 <= i < cubes@.len() && (#[trigger] cubes@[i]).1 == bounding_box.1.0 + 1;
        let y1 = choose|i: int| 0 <= i < cubes@.len() && (#[trigger] cubes@[i]).1 == bounding_box.1.1 - 1;
        let z0 = choose|i: int| 0 <= i < cubes@.len() && (#[trigger] cubes@[i]).2 == bounding_box.2.0 + 1;
        let z1 = choose|i: int| 0 <= i < cubes@.len() && (#[trigger] cubes@[i]).2 == bounding_box.2.1 - 1;
        assert(isize::MIN + 1 < cubes@[x0].0 && cubes@[x1].0 < isize::MAX - 1);
        assert(isize::MIN + 1 < cubes@[y0].1 && cubes@[y1].1 < isize::MAX - 1);
        assert(isize::MIN + 1 < cubes@[z0].2 && cubes@[z1].2 < isize::MAX - 1);
    }
    let cells = flood(cubes, &bounding_box);
    let mut area: u128 = 0;
    let mut i: usize = 0;
    while i < cells.len()
        invariant
            i <= cells@.len(),
            roomy(bounding_box),
            forall|k: int| 0 <= k < cells@.len() ==> bounding_box.holds(#[trigger] cells@[k]),
            area == faces_total(cubes@, cells@, true, i as int),
            area <= 6 * i,
        decreases cells@.len() - i,
    {
        assert(bounding_box.holds(cells@[i as int]));
        area = area + count_faces(cubes, &cells[i], true) as u128;
        i += 1;
    }
    area
}

} // verus!
