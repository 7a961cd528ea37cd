//! Which cells a falling rock can still reach, and the rows it never can.
//!
//! A rock moves sideways and down, one step at a time, and never through
//! settled rock. A cell of a row can be entered from the row above or from
//! a free neighbour in the same row. A row that no cell can be entered in
//! seals off everything below it.

use vstd::prelude::*;
use crate::day17::model::{drop_rock, grid_of, jets_used};
use crate::day17::shape::shape_at;

verus! {

/// No cell of the row from column `a` to column `b`, both included and in
/// either order, is occupied.
pub open spec fn clear_between(row: Seq<bool>, a: int, b: int) -> bool {
    forall|k: int| (a <= k <= b || b <= k <= a) ==> !#[trigger] row[k]
}

/// Whether column `c` of `row` can be entered, given the columns that can be
/// entered in the row above: from one of those, straight down and then
/// sideways over free cells.
pub open spec fn can_enter(row: Seq<bool>, above: Seq<bool>, c: int) -> bool {
    exists|c0: int| 0 <= c0 < 7 && #[trigger] above[c0] && clear_between(row, c0, c)
}

/// The columns of `row` that can be entered.
pub open spec fn spread(row: Seq<bool>, above: Seq<bool>) -> Seq<bool> {
    Seq::new(7, |c: int| can_enter(row, above, c))
}

/// The columns of row `r` that can be entered from above the tower. Above
/// the tower every column can.
pub open spec fn reach(g: Seq<Seq<bool>>, r: int) -> Seq<bool>
    decreases g.len() - r,
{
    if r >= g.len() {
        Seq::new(7, |c: int| true)
    } else {
        spread(g[r], reach(g, r + 1))
    }
}

/// No column can be entered.
pub open spec fn blocked(s: Seq<bool>) -> bool {
    forall|c: int| 0 <= c < 7 ==> !#[trigger] s[c]
}

/// The highest row at or below `r`, and above row 0, that no cell can be
/// entered in; 0 if there is none.
pub open spec fn seal_from(g: Seq<Seq<bool>>, r: int) -> int
    decreases r,
{
    if r <= 0 {
        0
    } else if blocked(reach(g, r)) {
        r
    } else {
        seal_from(g, r - 1)
    }
}

/// The highest row of the grid that seals off the rows below it; 0 if no
/// row does.
pub open spec fn seal_row(g: Seq<Seq<bool>>) -> int {
    seal_from(g, g.len() - 1)
}

/// The grid without the rows below its seal row.
pub open spec fn trimmed(g: Seq<Seq<bool>>) -> Seq<Seq<bool>> {
    g.subrange(seal_row(g), g.len() as int)
}

/// The kept rows, the jet position and the number of rows discarded after
/// `n` drops, the first of them being rock number `first`, when the rows
/// below the seal are discarded after every drop.
pub open spec fn run_trimmed(g: Seq<Seq<bool>>, j: int, jets: Seq<u8>, first: nat, n: nat) -> (
    Seq<Seq<bool>>,
    int,
    int,
)
    decreases n,
{
    if n == 0 {
        (g, j, 0)
    } else {
        let (g1, j1, e1) = run_trimmed(g, j, jets, first, (n - 1) as nat);
        let (g2, j2) = drop_rock(g1, shape_at(first + n - 1), jets, j1);
        (trimmed(g2), j2, e1 + seal_row(g2))
    }
}

/// How many jets `n` drops use, the first of them being rock number
/// `first`, when the rows below the seal are discarded after every drop.
pub open spec fn trimmed_jets(g: Seq<Seq<bool>>, j: int, jets: Seq<u8>, first: nat, n: nat) -> int
    decreases n,
{
    if n == 0 {
        0
    } else {
        let (g1, j1, _e1) = run_trimmed(g, j, jets, first, (n - 1) as nat);
        trimmed_jets(g, j, jets, first, (n - 1) as nat) + jets_used(
            g1,
            shape_at(first + n - 1),
            jets,
            j1,
        )
    }
}

/// The height of the tower after `n` drops into the grid `g`, counted with
/// the rows that were discarded on the way.
pub open spec fn trimmed_height(g: Seq<Seq<bool>>, j: int, jets: Seq<u8>, n: nat) -> int {
    run_trimmed(g, j, jets, 0, n).0.len() + run_trimmed(g, j, jets, 0, n).2
}

/// Whether no cell of the row from column `a` to column `b` is occupied.
pub fn is_clear_between(row: &[bool; 7], a: usize, b: usize) -> (clear: bool)
    requires
        a < 7,
        b < 7,
    ensures
        clear == clear_between(row@, a as int, b as int),
{
    let lo = if a <= b {
        a
    } else {
        b
    };
    let hi = if a <= b {
        b
    } else {
        a
    };
    let mut k: usize = lo;
    while k <= hi
        invariant
            lo <= k <= hi + 1,
            hi < 7,
            lo == if a <= b {
                a
            } else {
                b
            },
            hi == if a <= b {
                b
            } else {
                a
            },
            forall|i: int| lo <= i < k ==> !#[trigger] row@[i],
        decreases hi + 1 - k,
    {
        if row[k] {
            return false;
        }
        k += 1;
    }
    true
}

/// Whether column `c` of `row` can be entered.
pub fn column_can_enter(row: &[bool; 7], above: &[bool; 7], c: usize) -> (open: bool)
    requires
        c < 7,
    ensures
        open == can_enter(row@, above@, c as int),
{
    let mut c0: usize = 0;
    while c0 < 7
        invariant
            c0 <= 7,
            c < 7,
            forall|i: int| 0 <= i < c0 ==> !(#[trigger] above@[i] && clear_between(row@, i, c as int)),
        decreases 7 - c0,
    {
        if above[c0] && is_clear_between(row, c0, c) {
            return true;
        }
        c0 += 1;
    }
    false
}

/// The columns of `row` that can be entered.
pub fn spread_row(row: &[bool; 7], above: &[bool; 7]) -> (open: [bool; 7])
    ensures
        open@ == spread(row@, above@),
{
    let mut open = [false; 7];
    let mut c: usize = 0;
    while c < 7
        invariant
            c <= 7,
            forall|i: int| 0 <= i < c ==> #[trigger] open@[i] == can_enter(row@, above@, i),
        decreases 7 - c,
    {
        let enter = column_can_enter(row, above, c);
        open[c] = enter;
        c += 1;
    }
    assert(open@ =~= spread(row@, above@));
    open
}

/// Whether no column can be entered.
pub fn is_blocked(open: &[bool; 7]) -> (none: bool)
    ensures
        none == blocked(open@),
{
    let mut c: usize = 0;
    while c < 7
        invariant
            c <= 7,
            forall|i: int| 0 <= i < c ==> !#[trigger] open@[i],
        decreases 7 - c,
    {
        if open[c] {
            return false;
        }
        c += 1;
    }
    true
}

/// The seal row of the rows.
pub fn find_seal_row(rows: &Vec<[bool; 7]>) -> (s: usize)
    ensures
        s == seal_row(grid_of(rows@)),
        s <= rows@.len(),
{
    let ghost g = grid_of(rows@);
    let mut above = [true; 7];
    let mut r: usize = rows.len();
    assert(above@ =~= reach(g, r as int));
    while r > 1
        invariant
            r <= rows@.len(),
            g == grid_of(rows@),
            above@ == reach(g, r as int),
            seal_row(g) == seal_from(g, r - 1),
        decreases r,
    {
        r -= 1;
        let open = spread_row(&rows[r], &above);
        assert(open@ == reach(g, r as int));
        if is_blocked(&open) {
            return r;
        }
        above = open;
    }
    0
}

} // verus!
