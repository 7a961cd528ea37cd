//! The fall of rocks as mathematics: a grid of cells, one drop, many drops.

use vstd::prelude::*;
use vstd::arithmetic::div_mod::{lemma_mod_self_0, lemma_small_mod};
use crate::day17::shape::{RockShape, shape_at};

verus! {

/// The byte of a jet that pushes left.
pub const LEFT: u8 = 60;

/// The byte of a jet that pushes right.
pub const RIGHT: u8 = 62;

/// A jet sequence that can drive a simulation: not empty, pushes only.
pub open spec fn valid_jets(jets: Seq<u8>) -> bool {
    &&& jets.len() > 0
    &&& forall|i: int| 0 <= i < jets.len() ==> jets[i] == LEFT || jets[i] == RIGHT
}

/// The grid that a vector of rows stands for, bottom row first.
pub open spec fn grid_of(rows: Seq<[bool; 7]>) -> Seq<Seq<bool>> {
    Seq::new(rows.len(), |r: int| rows[r]@)
}

/// Whether column `c` of row `r` holds settled rock.
pub open spec fn occupied(g: Seq<Seq<bool>>, c: int, r: int) -> bool {
    0 <= r < g.len() && 0 <= c < 7 && g[r][c]
}

/// Whether a rock whose bottom-left corner is at column `x`, row `y` would
/// share a cell with settled rock.
pub open spec fn collides(g: Seq<Seq<bool>>, shape: RockShape, x: int, y: int) -> bool {
    exists|c: int, r: int| shape.covers(c - x, r - y) && #[trigger] occupied(g, c, r)
}

/// The column of the rock after one jet: one step sideways unless a wall or
/// settled rock is in the way.
pub open spec fn pushed(g: Seq<Seq<bool>>, shape: RockShape, x: int, y: int, jet: u8) -> int {
    if jet == LEFT {
        if x > 0 && !collides(g, shape, x - 1, y) {
            x - 1
        } else {
            x
        }
    } else {
        if x + shape.spec_width() < 7 && !collides(g, shape, x + 1, y) {
            x + 1
        } else {
            x
        }
    }
}

/// The position of the next jet after the one at `j`.
pub open spec fn next_jet(jets: Seq<u8>, j: int) -> int {
    (j + 1) % (jets.len() as int)
}

/// The next position is the one after `j`, or the first one after the last.
pub proof fn lemma_next_jet(jets: Seq<u8>, j: int)
    requires
        0 <= j < jets.len(),
    ensures
        next_jet(jets, j) == if j + 1 == jets.len() {
            0
        } else {
            j + 1
        },
        0 <= next_jet(jets, j) < jets.len(),
        j % (jets.len() as int) == j,
{
    let n = jets.len() as int;
    lemma_small_mod(j as nat, n as nat);
    if j + 1 == n {
        lemma_mod_self_0(n);
    } else {
        lemma_small_mod((j + 1) as nat, n as nat);
    }
}

/// Where a rock at column `x`, row `y` comes to rest, and the position of the
/// next unused jet: a push, then one row down, until the way down is blocked.
pub open spec fn rest(
    g: Seq<Seq<bool>>,
    shape: RockShape,
    jets: Seq<u8>,
    x: int,
    y: int,
    j: int,
) -> (int, int, int)
    decreases y,
{
    let x1 = pushed(g, shape, x, y, jets[j]);
    let j1 = next_jet(jets, j);
    if y > 0 && !collides(g, shape, x1, y - 1) {
        rest(g, shape, jets, x1, y - 1, j1)
    } else {
        (x1, y, j1)
    }
}

/// How many jets one drop into the grid uses when the first of them is the
/// one at `j`: one for every row that the rock falls and one more.
pub open spec fn jets_used(g: Seq<Seq<bool>>, shape: RockShape, jets: Seq<u8>, j: int) -> int {
    g.len() + 3 - rest(g, shape, jets, 2, g.len() as int + 3, j).1 + 1
}

/// The number of rows once a rock has settled with its bottom row at `y`.
pub open spec fn settled_len(g: Seq<Seq<bool>>, shape: RockShape, y: int) -> int {
    if g.len() >= y + shape.spec_height() {
        g.len() as int
    } else {
        y + shape.spec_height()
    }
}

/// The grid once a rock has settled with its bottom-left corner at `x`, `y`.
pub open spec fn settled(g: Seq<Seq<bool>>, shape: RockShape, x: int, y: int) -> Seq<Seq<bool>> {
    Seq::new(
        settled_len(g, shape, y) as nat,
        |r: int| Seq::new(7, |c: int| occupied(g, c, r) || shape.covers(c - x, r - y)),
    )
}

/// One drop: the rock appears two columns from the left wall and three rows
/// above the tower, falls, and settles. Gives the new grid and the position
/// of the next unused jet.
pub open spec fn drop_rock(g: Seq<Seq<bool>>, shape: RockShape, jets: Seq<u8>, j: int) -> (
    Seq<Seq<bool>>,
    int,
) {
    let (x, y, j1) = rest(g, shape, jets, 2, g.len() as int + 3, j);
    (settled(g, shape, x, y), j1)
}

/// The grid and jet position after `n` drops, one by one, the first of them
/// being rock number `first`.
pub open spec fn run(g: Seq<Seq<bool>>, j: int, jets: Seq<u8>, first: nat, n: nat) -> (
    Seq<Seq<bool>>,
    int,
)
    decreases n,
{
    if n == 0 {
        (g, j)
    } else {
        let (g1, j1) = run(g, j, jets, first, (n - 1) as nat);
        drop_rock(g1, shape_at(first + n - 1), jets, j1)
    }
}

/// How many jets `n` drops use, one by one, the first of them being rock
/// number `first`.
pub open spec fn run_jets(g: Seq<Seq<bool>>, j: int, jets: Seq<u8>, first: nat, n: nat) -> int
    decreases n,
{
    if n == 0 {
        0
    } else {
        let (g1, j1) = run(g, j, jets, first, (n - 1) as nat);
        run_jets(g, j, jets, first, (n - 1) as nat) + jets_used(
            g1,
            shape_at(first + n - 1),
            jets,
            j1,
        )
    }
}

/// The height of the tower that `n` rocks build in an empty shaft.
pub open spec fn tower_height(jets: Seq<u8>, n: nat) -> int {
    run(Seq::empty(), 0, jets, 0, n).0.len() as int
}

} // verus!
