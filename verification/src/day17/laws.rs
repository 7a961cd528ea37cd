//! What holds of the simulation: rows below a seal never matter, and a state
//! that comes back makes the tower grow by the same amount for ever after.

use vstd::prelude::*;
use crate::day17::shape::{RockShape, shape_at, lemma_covers_bounds};
use crate::day17::model::{
    collides, drop_rock, jets_used, lemma_next_jet, next_jet, occupied, pushed, rest, run,
    run_jets, settled, settled_len, tower_height, valid_jets,
};
use crate::day17::seal::{
    blocked, can_enter, clear_between, reach, run_trimmed, seal_from, seal_row, trimmed,
    trimmed_height, trimmed_jets,
};

verus! {

/// Whether column `c` of row `r` is above the tower or can be entered.
pub open spec fn enterable(g: Seq<Seq<bool>>, c: int, r: int) -> bool {
    r >= g.len() || (0 <= c < 7 && reach(g, r)[c])
}

/// Every cell of a rock at column `x`, row `y` is above the tower or can be
/// entered.
pub open spec fn within_reach(g: Seq<Seq<bool>>, shape: RockShape, x: int, y: int) -> bool {
    forall|c: int, r: int| shape.covers(c - x, r - y) ==> #[trigger] enterable(g, c, r)
}

/// A free cell below a cell that can be entered can be entered.
pub proof fn lemma_reach_down(g: Seq<Seq<bool>>, c: int, r: int)
    requires
        0 <= r < g.len(),
        0 <= c < 7,
        enterable(g, c, r + 1),
        !g[r][c],
    ensures
        reach(g, r)[c],
{
    assert(reach(g, r + 1)[c]);
    assert(clear_between(g[r], c, c));
}

/// A free cell beside a cell that can be entered can be entered.
pub proof fn lemma_reach_sideways(g: Seq<Seq<bool>>, c: int, c1: int, r: int)
    requires
        0 <= r < g.len(),
        0 <= c < 7,
        0 <= c1 < 7,
        c1 == c + 1 || c1 == c - 1,
        reach(g, r)[c],
        !g[r][c1],
    ensures
        reach(g, r)[c1],
{
    let c0 = choose|c0: int|
        0 <= c0 < 7 && #[trigger] reach(g, r + 1)[c0] && clear_between(g[r], c0, c);
    assert(clear_between(g[r], c0, c1));
}

/// Whether a rock collides is decided by the rows it lies in: rows below it
/// can be cut off.
pub proof fn lemma_collides_shift(g: Seq<Seq<bool>>, e: int, shape: RockShape, x: int, y: int)
    requires
        0 <= e <= y,
        e <= g.len(),
    ensures
        collides(g, shape, x, y) == collides(g.subrange(e, g.len() as int), shape, x, y - e),
{
    let l = g.subrange(e, g.len() as int);
    if collides(g, shape, x, y) {
        let (c, r) = choose|c: int, r: int| shape.covers(c - x, r - y) && #[trigger] occupied(g, c, r);
        lemma_covers_bounds(shape, c - x, r - y);
        assert(shape.covers(c - x, (r - e) - (y - e)));
        assert(occupied(l, c, r - e));
    }
    if collides(l, shape, x, y - e) {
        let (c, r) = choose|c: int, r: int|
            shape.covers(c - x, r - (y - e)) && #[trigger] occupied(l, c, r);
        assert(shape.covers(c - x, (r + e) - y));
        assert(occupied(g, c, r + e));
    }
}

/// A rock above the tower is within reach.
pub proof fn lemma_spawn_within_reach(g: Seq<Seq<bool>>, shape: RockShape, x: int, y: int)
    requires
        y >= g.len(),
    ensures
        within_reach(g, shape, x, y),
{
    assert forall|c: int, r: int| shape.covers(c - x, r - y) implies #[trigger] enterable(
        g,
        c,
        r,
    ) by {
        lemma_covers_bounds(shape, c - x, r - y);
    }
}

/// A rock within reach stays within reach when a jet pushes it.
pub proof fn lemma_push_within_reach(g: Seq<Seq<bool>>, shape: RockShape, x: int, y: int, jet: u8)
    requires
        0 <= x,
        x + shape.spec_width() <= 7,
        0 <= y,
        within_reach(g, shape, x, y),
    ensures
        within_reach(g, shape, pushed(g, shape, x, y, jet), y),
        0 <= pushed(g, shape, x, y, jet),
        pushed(g, shape, x, y, jet) + shape.spec_width() <= 7,
{
    let x1 = pushed(g, shape, x, y, jet);
    if x1 != x {
        assert(!collides(g, shape, x1, y));
        assert forall|c: int, r: int| shape.covers(c - x1, r - y) implies #[trigger] enterable(
            g,
            c,
            r,
        ) by {
            lemma_covers_bounds(shape, c - x1, r - y);
            if r < g.len() {
                let c_old = c - (x1 - x);
                assert(shape.covers(c_old - x, r - y));
                assert(enterable(g, c_old, r));
                assert(!occupied(g, c, r));
                lemma_reach_sideways(g, c_old, c, r);
            }
        }
    }
}

/// A rock within reach stays within reach when it falls one row.
pub proof fn lemma_fall_within_reach(g: Seq<Seq<bool>>, shape: RockShape, x: int, y: int)
    requires
        0 <= x,
        x + shape.spec_width() <= 7,
        0 < y,
        within_reach(g, shape, x, y),
        !collides(g, shape, x, y - 1),
    ensures
        within_reach(g, shape, x, y - 1),
{
    assert forall|c: int, r: int| shape.covers(c - x, r - (y - 1)) implies #[trigger] enterable(
        g,
        c,
        r,
    ) by {
        lemma_covers_bounds(shape, c - x, r - (y - 1));
        if r < g.len() {
            assert(shape.covers(c - x, (r + 1) - y));
            assert(enterable(g, c, r + 1));
            assert(!occupied(g, c, r));
            lemma_reach_down(g, c, r);
        }
    }
}

/// No rock within reach has its bottom row in a row that no cell can be
/// entered in.
pub proof fn lemma_seal_holds(g: Seq<Seq<bool>>, shape: RockShape, x: int, e: int)
    requires
        0 <= x,
        x + shape.spec_width() <= 7,
        0 <= e < g.len(),
        blocked(reach(g, e)),
    ensures
        !within_reach(g, shape, x, e),
{
    lemma_covers_bounds(shape, 0, 0);
    let c = x + shape.spine();
    assert(shape.covers(c - x, e - e));
    assert(!enterable(g, c, e));
}

/// Above a seal, a rock falls in the whole grid as it falls in the rows from
/// the seal up.
pub proof fn lemma_rest_shift(
    g: Seq<Seq<bool>>,
    e: int,
    shape: RockShape,
    jets: Seq<u8>,
    x: int,
    y: int,
    j: int,
)
    requires
        valid_jets(jets),
        0 <= j < jets.len(),
        0 <= e < g.len(),
        blocked(reach(g, e)),
        e < y,
        0 <= x,
        x + shape.spec_width() <= 7,
        within_reach(g, shape, x, y),
    ensures
        rest(g, shape, jets, x, y, j).0 == rest(
            g.subrange(e, g.len() as int),
            shape,
            jets,
            x,
            y - e,
            j,
        ).0,
        rest(g, shape, jets, x, y, j).1 == rest(
            g.subrange(e, g.len() as int),
            shape,
            jets,
            x,
            y - e,
            j,
        ).1 + e,
        rest(g, shape, jets, x, y, j).2 == rest(
            g.subrange(e, g.len() as int),
            shape,
            jets,
            x,
            y - e,
            j,
        ).2,
    decreases y,
{
    let l = g.subrange(e, g.len() as int);
    let jet = jets[j];
    lemma_collides_shift(g, e, shape, x - 1, y);
    lemma_collides_shift(g, e, shape, x + 1, y);
    let x1 = pushed(g, shape, x, y, jet);
    assert(x1 == pushed(l, shape, x, y - e, jet));
    lemma_push_within_reach(g, shape, x, y, jet);
    lemma_collides_shift(g, e, shape, x1, y - 1);
    lemma_next_jet(jets, j);
    if !collides(g, shape, x1, y - 1) {
        lemma_fall_within_reach(g, shape, x1, y);
        if y - 1 == e {
            lemma_seal_holds(g, shape, x1, e);
        }
        lemma_rest_shift(g, e, shape, jets, x1, y - 1, next_jet(jets, j));
    }
}

/// Where a rock comes to rest: between the walls, not above the tower, and
/// touching no settled rock; the jet position stays within the sequence.
pub proof fn lemma_rest_bounds(
    g: Seq<Seq<bool>>,
    shape: RockShape,
    jets: Seq<u8>,
    x: int,
    y: int,
    j: int,
)
    requires
        valid_jets(jets),
        0 <= j < jets.len(),
        0 <= y,
        0 <= x,
        x + shape.spec_width() <= 7,
        !collides(g, shape, x, y),
    ensures
        0 <= rest(g, shape, jets, x, y, j).0,
        rest(g, shape, jets, x, y, j).0 + shape.spec_width() <= 7,
        0 <= rest(g, shape, jets, x, y, j).1 <= y,
        rest(g, shape, jets, x, y, j).1 <= g.len(),
        0 <= rest(g, shape, jets, x, y, j).2 < jets.len(),
        !collides(
            g,
            shape,
            rest(g, shape, jets, x, y, j).0,
            rest(g, shape, jets, x, y, j).1,
        ),
    decreases y,
{
    let x1 = pushed(g, shape, x, y, jets[j]);
    lemma_next_jet(jets, j);
    if y > 0 && !collides(g, shape, x1, y - 1) {
        lemma_rest_bounds(g, shape, jets, x1, y - 1, next_jet(jets, j));
    } else {
        if y > 0 {
            let (c, r) = choose|c: int, r: int|
                shape.covers(c - x1, r - (y - 1)) && #[trigger] occupied(g, c, r);
            lemma_covers_bounds(shape, c - x1, r - (y - 1));
        }
    }
}

/// A rock above the tower touches no settled rock.
pub proof fn lemma_spawn_is_free(g: Seq<Seq<bool>>, shape: RockShape, x: int, y: int)
    requires
        y >= g.len(),
    ensures
        !collides(g, shape, x, y),
{
    assert forall|c: int, r: int| #[trigger] occupied(g, c, r) implies !shape.covers(
        c - x,
        r - y,
    ) by {
        lemma_covers_bounds(shape, c - x, r - y);
    }
}

/// Settling commutes with cutting off rows below the rock.
pub proof fn lemma_settled_shift(g: Seq<Seq<bool>>, e: int, shape: RockShape, x: int, y: int)
    requires
        0 <= e <= y,
        e <= g.len(),
    ensures
        settled(g, shape, x, y).len() == settled_len(g, shape, y),
        settled(g, shape, x, y).subrange(e, settled_len(g, shape, y)) == settled(
            g.subrange(e, g.len() as int),
            shape,
            x,
            y - e,
        ),
{
    let l = g.subrange(e, g.len() as int);
    let a = settled(g, shape, x, y).subrange(e, settled_len(g, shape, y));
    let b = settled(l, shape, x, y - e);
    lemma_covers_bounds(shape, 0, 0);
    assert(a.len() == b.len());
    assert forall|r: int| 0 <= r < a.len() implies a[r] =~= b[r] by {
        assert forall|c: int| 0 <= c < 7 implies a[r][c] == b[r][c] by {
            assert(occupied(g, c, r + e) == occupied(l, c, r));
            assert(shape.covers(c - x, (r + e) - y) == shape.covers(c - x, r - (y - e)));
        }
    }
    assert(a =~= b);
}

/// The cells that can be entered in a row are the same once rows below it
/// are cut off.
pub proof fn lemma_reach_shift(g: Seq<Seq<bool>>, e: int, r: int)
    requires
        0 <= e <= r,
        e <= g.len(),
    ensures
        reach(g, r) == reach(g.subrange(e, g.len() as int), r - e),
    decreases g.len() - r,
{
    let l = g.subrange(e, g.len() as int);
    if r < g.len() {
        lemma_reach_shift(g, e, r + 1);
        assert(g[r] == l[r - e]);
    }
}

/// Settling a rock opens no cell: what can be entered afterwards could be
/// entered before.
pub proof fn lemma_reach_after_settle(
    g: Seq<Seq<bool>>,
    shape: RockShape,
    x: int,
    y: int,
    r: int,
    c: int,
)
    requires
        0 <= r,
        0 <= c < 7,
        reach(settled(g, shape, x, y), r)[c],
    ensures
        enterable(g, c, r),
    decreases settled(g, shape, x, y).len() - r,
{
    let g1 = settled(g, shape, x, y);
    if r < g.len() {
        assert(r < g1.len());
        let c0 = choose|c0: int|
            0 <= c0 < 7 && #[trigger] reach(g1, r + 1)[c0] && clear_between(g1[r], c0, c);
        lemma_reach_after_settle(g, shape, x, y, r + 1, c0);
        assert(reach(g, r + 1)[c0]);
        assert forall|k: int| (c0 <= k <= c || c <= k <= c0) implies !#[trigger] g[r][k] by {
            assert(!g1[r][k]);
            assert(!occupied(g, k, r));
        }
        assert(clear_between(g[r], c0, c));
        assert(can_enter(g[r], reach(g, r + 1), c));
    }
}

/// A seal stays a seal when a rock settles.
pub proof fn lemma_seal_persists(g: Seq<Seq<bool>>, shape: RockShape, x: int, y: int, e: int)
    requires
        0 <= e < g.len(),
        blocked(reach(g, e)),
    ensures
        blocked(reach(settled(g, shape, x, y), e)),
{
    let g1 = settled(g, shape, x, y);
    assert forall|c: int| 0 <= c < 7 implies !#[trigger] reach(g1, e)[c] by {
        if reach(g1, e)[c] {
            lemma_reach_after_settle(g, shape, x, y, e, c);
        }
    }
}

/// The seal row is 0 or a row that no cell can be entered in, and no such
/// row lies above it.
pub proof fn lemma_seal_from(g: Seq<Seq<bool>>, r: int)
    requires
        r < g.len(),
    ensures
        seal_from(g, r) == 0 || (0 < seal_from(g, r) <= r && blocked(reach(g, seal_from(g, r)))),
        forall|k: int| seal_from(g, r) < k <= r ==> !blocked(#[trigger] reach(g, k)),
    decreases r,
{
    if r > 0 && !blocked(reach(g, r)) {
        lemma_seal_from(g, r - 1);
    }
}

/// The rows `l` are the rows of `g` from row `e` up, and row `e` seals off
/// what is below it.
pub open spec fn mirrors(g: Seq<Seq<bool>>, l: Seq<Seq<bool>>, e: int) -> bool {
    &&& 0 <= e <= g.len()
    &&& l == g.subrange(e, g.len() as int)
    &&& (e == 0 || (e < g.len() && blocked(reach(g, e))))
}

/// One drop into the whole grid and one drop into the rows above a seal,
/// followed by discarding what a new seal cuts off, leave the same relation.
pub proof fn lemma_drop_mirrors(
    g: Seq<Seq<bool>>,
    l: Seq<Seq<bool>>,
    e: int,
    shape: RockShape,
    jets: Seq<u8>,
    j: int,
)
    requires
        valid_jets(jets),
        0 <= j < jets.len(),
        mirrors(g, l, e),
    ensures
        drop_rock(g, shape, jets, j).1 == drop_rock(l, shape, jets, j).1,
        0 <= drop_rock(g, shape, jets, j).1 < jets.len(),
        mirrors(
            drop_rock(g, shape, jets, j).0,
            trimmed(drop_rock(l, shape, jets, j).0),
            e + seal_row(drop_rock(l, shape, jets, j).0),
        ),
        g.len() <= drop_rock(g, shape, jets, j).0.len() <= g.len() + 4,
        jets_used(g, shape, jets, j) == jets_used(l, shape, jets, j),
{
    let y0 = g.len() as int + 3;
    let g1 = drop_rock(g, shape, jets, j).0;
    let l1 = drop_rock(l, shape, jets, j).0;
    let at = rest(g, shape, jets, 2, y0, j);
    lemma_covers_bounds(shape, 0, 0);
    lemma_spawn_is_free(g, shape, 2, y0);
    lemma_rest_bounds(g, shape, jets, 2, y0, j);
    if e == 0 {
        assert(l =~= g);
    } else {
        lemma_spawn_within_reach(g, shape, 2, y0);
        lemma_rest_shift(g, e, shape, jets, 2, y0, j);
        let at_l = rest(l, shape, jets, 2, l.len() as int + 3, j);
        assert(at_l.0 == at.0 && at_l.1 + e == at.1);
        lemma_spawn_is_free(l, shape, 2, l.len() as int + 3);
        lemma_rest_bounds(l, shape, jets, 2, l.len() as int + 3, j);
        lemma_settled_shift(g, e, shape, at.0, at.1);
        lemma_seal_persists(g, shape, at.0, at.1, e);
    }
    assert(l1 == g1.subrange(e, g1.len() as int));
    let s = seal_row(l1);
    lemma_seal_from(l1, l1.len() - 1);
    assert(trimmed(l1) =~= g1.subrange(e + s, g1.len() as int));
    if s > 0 {
        lemma_reach_shift(g1, e, e + s);
    }
}

/// The jet position after any number of drops stays within the sequence,
/// and every drop adds at most four rows and removes none.
pub proof fn lemma_run_bounds(g: Seq<Seq<bool>>, j: int, jets: Seq<u8>, first: nat, n: nat)
    requires
        valid_jets(jets),
        0 <= j < jets.len(),
    ensures
        0 <= run(g, j, jets, first, n).1 < jets.len(),
        g.len() <= run(g, j, jets, first, n).0.len() <= g.len() + 4 * n,
    decreases n,
{
    if n > 0 {
        lemma_run_bounds(g, j, jets, first, (n - 1) as nat);
        let (g1, j1) = run(g, j, jets, first, (n - 1) as nat);
        let g0 = g1.subrange(0, g1.len() as int);
        assert(g0 =~= g1);
        lemma_drop_mirrors(g1, g1, 0, shape_at(first + n - 1), jets, j1);
    }
}

/// The tower never shrinks.
pub proof fn lemma_run_monotone(g: Seq<Seq<bool>>, j: int, jets: Seq<u8>, a: nat, b: nat)
    requires
        valid_jets(jets),
        0 <= j < jets.len(),
        a <= b,
    ensures
        run(g, j, jets, 0, a).0.len() <= run(g, j, jets, 0, b).0.len(),
    decreases b,
{
    if a < b {
        lemma_run_monotone(g, j, jets, a, (b - 1) as nat);
        lemma_run_bounds(g, j, jets, 0, (b - 1) as nat);
        let (g1, j1) = run(g, j, jets, 0, (b - 1) as nat);
        assert(g1.subrange(0, g1.len() as int) =~= g1);
        lemma_drop_mirrors(g1, g1, 0, shape_at(b - 1), jets, j1);
    }
}

/// Discarding the rows below a seal after every drop changes nothing that
/// is seen from above: the kept rows are the top of the whole tower, the
/// jet position is the same, as many jets are used, and the height is the
/// same.
pub proof fn lemma_trimming_keeps_height(
    g: Seq<Seq<bool>>,
    j: int,
    jets: Seq<u8>,
    first: nat,
    n: nat,
)
    requires
        valid_jets(jets),
        0 <= j < jets.len(),
    ensures
        run_trimmed(g, j, jets, first, n).1 == run(g, j, jets, first, n).1,
        mirrors(
            run(g, j, jets, first, n).0,
            run_trimmed(g, j, jets, first, n).0,
            run_trimmed(g, j, jets, first, n).2,
        ),
        run_trimmed(g, j, jets, first, n).0.len() + run_trimmed(g, j, jets, first, n).2 == run(
            g,
            j,
            jets,
            first,
            n,
        ).0.len(),
        trimmed_jets(g, j, jets, first, n) == run_jets(g, j, jets, first, n),
    decreases n,
{
    if n == 0 {
        assert(g =~= g.subrange(0, g.len() as int));
    } else {
        lemma_trimming_keeps_height(g, j, jets, first, (n - 1) as nat);
        lemma_run_bounds(g, j, jets, first, (n - 1) as nat);
        let (g1, j1) = run(g, j, jets, first, (n - 1) as nat);
        let (l1, k1, e1) = run_trimmed(g, j, jets, first, (n - 1) as nat);
        lemma_drop_mirrors(g1, l1, e1, shape_at(first + n - 1), jets, j1);
    }
}

/// Dropping `a + b` rocks is dropping `a` and then `b`.
pub proof fn lemma_run_trimmed_split(
    g: Seq<Seq<bool>>,
    j: int,
    jets: Seq<u8>,
    first: nat,
    a: nat,
    b: nat,
)
    ensures
        run_trimmed(g, j, jets, first, a + b).0 == run_trimmed(
            run_trimmed(g, j, jets, first, a).0,
            run_trimmed(g, j, jets, first, a).1,
            jets,
            first + a,
            b,
        ).0,
        run_trimmed(g, j, jets, first, a + b).1 == run_trimmed(
            run_trimmed(g, j, jets, first, a).0,
            run_trimmed(g, j, jets, first, a).1,
            jets,
            first + a,
            b,
        ).1,
        run_trimmed(g, j, jets, first, a + b).2 == run_trimmed(g, j, jets, first, a).2
            + run_trimmed(
            run_trimmed(g, j, jets, first, a).0,
            run_trimmed(g, j, jets, first, a).1,
            jets,
            first + a,
            b,
        ).2,
    decreases b,
{
    if b > 0 {
        lemma_run_trimmed_split(g, j, jets, first, a, (b - 1) as nat);
        assert(first + (a + b) - 1 == (first + a) + b - 1);
    }
}

/// Only the place of the first rock in the cycle of five shapes matters.
pub proof fn lemma_run_trimmed_shapes(
    g: Seq<Seq<bool>>,
    j: int,
    jets: Seq<u8>,
    first_a: nat,
    first_b: nat,
    n: nat,
)
    requires
        first_a % 5 == first_b % 5,
    ensures
        run_trimmed(g, j, jets, first_a, n) == run_trimmed(g, j, jets, first_b, n),
    decreases n,
{
    if n > 0 {
        lemma_run_trimmed_shapes(g, j, jets, first_a, first_b, (n - 1) as nat);
        assert(shape_at(first_a + n - 1) == shape_at(first_b + n - 1));
    }
}

/// Whether the simulation is in the same state before drop `early` and before
/// drop `late`: the same shape is next, at the same jet, over the same rows.
pub open spec fn same_state(g: Seq<Seq<bool>>, j: int, jets: Seq<u8>, early: nat, late: nat) -> bool {
    &&& early % 5 == late % 5
    &&& run_trimmed(g, j, jets, 0, early).0 == run_trimmed(g, j, jets, 0, late).0
    &&& run_trimmed(g, j, jets, 0, early).1 == run_trimmed(g, j, jets, 0, late).1
}

/// Once a state has come back, it comes back after every further drop, and
/// the tower has grown by the same amount since.
pub proof fn lemma_state_repeats(g: Seq<Seq<bool>>, j: int, jets: Seq<u8>, early: nat, late: nat, m: nat)
    requires
        same_state(g, j, jets, early, late),
    ensures
        same_state(g, j, jets, early + m, late + m),
        trimmed_height(g, j, jets, late + m) - trimmed_height(g, j, jets, early + m) == trimmed_height(
            g,
            j,
            jets,
            late,
        ) - trimmed_height(g, j, jets, early),
{
    let s0 = run_trimmed(g, j, jets, 0, early);
    let s1 = run_trimmed(g, j, jets, 0, late);
    let t0 = run_trimmed(s0.0, s0.1, jets, early, m);
    let t1 = run_trimmed(s1.0, s1.1, jets, late, m);
    let u0 = run_trimmed(g, j, jets, 0, early + m);
    let u1 = run_trimmed(g, j, jets, 0, late + m);
    assert(u0.0 == t0.0 && u0.1 == t0.1 && u0.2 == s0.2 + t0.2) by {
        lemma_run_trimmed_split(g, j, jets, 0, early, m);
    }
    assert(u1.0 == t1.0 && u1.1 == t1.1 && u1.2 == s1.2 + t1.2) by {
        lemma_run_trimmed_split(g, j, jets, 0, late, m);
    }
    assert(t0 == t1) by {
        lemma_run_trimmed_shapes(s0.0, s0.1, jets, early, late, m);
    }
    assert((early + m) % 5 == (late + m) % 5);
}

/// After a state has come back, the tower grows by the same amount in every
/// period: `q` periods after drop `early + r` it is `q` times the growth of
/// one period higher.
pub proof fn lemma_extrapolate(
    g: Seq<Seq<bool>>,
    j: int,
    jets: Seq<u8>,
    early: nat,
    period: nat,
    q: nat,
    r: nat,
)
    requires
        same_state(g, j, jets, early, early + period),
    ensures
        trimmed_height(g, j, jets, early + q * period + r) == trimmed_height(g, j, jets, early + r) + q
            * (trimmed_height(g, j, jets, early + period) - trimmed_height(g, j, jets, early)),
    decreases q,
{
    let growth = trimmed_height(g, j, jets, early + period) - trimmed_height(g, j, jets, early);
    if q == 0 {
        assert(q * period == 0) by (nonlinear_arith)
            requires
                q == 0,
        ;
        assert(q * growth == 0) by (nonlinear_arith)
            requires
                q == 0,
        ;
    } else {
        let m = ((q - 1) as nat) * period + r;
        lemma_extrapolate(g, j, jets, early, period, (q - 1) as nat, r);
        lemma_state_repeats(g, j, jets, early, early + period, m);
        assert(q * period == ((q - 1) as nat) * period + period) by (nonlinear_arith)
            requires
                q >= 1,
        ;
        assert(q * growth == ((q - 1) as nat) * growth + growth) by (nonlinear_arith)
            requires
                q >= 1,
        ;
        assert(early + period + m == early + q * period + r);
    }
}

/// The height that whole periods and the drops left over add up to is the
/// height that dropping every rock gives: when the state before drop `early`
/// has come back before drop `early + period`, the tower after
/// `early + q * period + r` rocks, all of them simulated without discarding
/// anything, is as high as after `early + r` rocks plus `q` times the growth
/// between the two sightings.
pub proof fn lemma_extrapolation_is_exact(
    g: Seq<Seq<bool>>,
    j: int,
    jets: Seq<u8>,
    early: nat,
    period: nat,
    q: nat,
    r: nat,
)
    requires
        valid_jets(jets),
        0 <= j < jets.len(),
        same_state(g, j, jets, early, early + period),
    ensures
        run(g, j, jets, 0, early + q * period + r).0.len() == run(g, j, jets, 0, early + r).0.len() + q
            * (run(g, j, jets, 0, early + period).0.len() - run(g, j, jets, 0, early).0.len()),
{
    lemma_extrapolate(g, j, jets, early, period, q, r);
    lemma_trimming_keeps_height(g, j, jets, 0, early + q * period + r);
    lemma_trimming_keeps_height(g, j, jets, 0, early + r);
    lemma_trimming_keeps_height(g, j, jets, 0, early + period);
    lemma_trimming_keeps_height(g, j, jets, 0, early);
}

/// Periodicity: when the state before drop `early` has come back before drop
/// `early + period`, the tower grows by the same amount over any `period`
/// drops from `early` on, wherever they start.
pub proof fn lemma_periodicity(
    g: Seq<Seq<bool>>,
    j: int,
    jets: Seq<u8>,
    early: nat,
    period: nat,
    n1: nat,
    n2: nat,
)
    requires
        valid_jets(jets),
        0 <= j < jets.len(),
        same_state(g, j, jets, early, early + period),
        early <= n1,
        early <= n2,
    ensures
        run(g, j, jets, 0, n2 + period).0.len() - run(g, j, jets, 0, n2).0.len() == run(
            g,
            j,
            jets,
            0,
            n1 + period,
        ).0.len() - run(g, j, jets, 0, n1).0.len(),
{
    lemma_state_repeats(g, j, jets, early, early + period, (n1 - early) as nat);
    lemma_state_repeats(g, j, jets, early, early + period, (n2 - early) as nat);
    lemma_trimming_keeps_height(g, j, jets, 0, n1);
    lemma_trimming_keeps_height(g, j, jets, 0, n1 + period);
    lemma_trimming_keeps_height(g, j, jets, 0, n2);
    lemma_trimming_keeps_height(g, j, jets, 0, n2 + period);
}

/// The simulation is a function of the jets and the number of rocks: two
/// runs over the same jets and the same number of rocks build towers of
/// the same height.
pub proof fn lemma_replay_agrees(jets_a: Seq<u8>, n_a: nat, jets_b: Seq<u8>, n_b: nat)
    requires
        jets_a =~= jets_b,
        n_a == n_b,
    ensures
        tower_height(jets_a, n_a) == tower_height(jets_b, n_b),
{
}

/// A drop uses four jets at least, and at most four more than the grid has
/// rows.
pub proof fn lemma_jets_of_a_drop(g: Seq<Seq<bool>>, shape: RockShape, jets: Seq<u8>, j: int)
    requires
        valid_jets(jets),
        0 <= j < jets.len(),
    ensures
        4 <= jets_used(g, shape, jets, j) <= g.len() + 4,
{
    let y0 = g.len() as int + 3;
    lemma_covers_bounds(shape, 0, 0);
    lemma_spawn_is_free(g, shape, 2, y0);
    lemma_rest_bounds(g, shape, jets, 2, y0, j);
}

/// The jets that `n` drops use are no more than the tallest grid on the
/// way would take for every drop.
pub proof fn lemma_jets_of_a_run(g: Seq<Seq<bool>>, j: int, jets: Seq<u8>, first: nat, n: nat)
    requires
        valid_jets(jets),
        0 <= j < jets.len(),
    ensures
        4 * n <= run_jets(g, j, jets, first, n) <= n * (g.len() + 4 * n),
    decreases n,
{
    if n > 0 {
        lemma_jets_of_a_run(g, j, jets, first, (n - 1) as nat);
        lemma_run_bounds(g, j, jets, first, (n - 1) as nat);
        let (g1, j1) = run(g, j, jets, first, (n - 1) as nat);
        lemma_jets_of_a_drop(g1, shape_at(first + n - 1), jets, j1);
        let len = g.len() as int;
        assert((n - 1) * (len + 4 * (n - 1)) + (len + 4 * (n - 1) + 4) <= n * (len + 4 * n))
            by (nonlinear_arith)
            requires
                n >= 1,
                len >= 0,
        ;
    } else {
        assert(0 * (g.len() + 4 * 0) == 0) by (nonlinear_arith);
    }
}

/// The jets of `rounds` drops can be counted where the count now and
/// what the tallest grid on the way would take for every drop fit the
/// machine's integers, whether rows are discarded on the way or not.
pub proof fn lemma_jets_can_be_counted(
    count: int,
    g: Seq<Seq<bool>>,
    j: int,
    jets: Seq<u8>,
    rounds: nat,
    m: nat,
)
    requires
        valid_jets(jets),
        0 <= j < jets.len(),
        0 <= count,
        count + rounds * (g.len() + 4 * rounds + 4) <= usize::MAX,
        m < rounds,
    ensures
        count + run_jets(g, j, jets, 0, m) + run(g, j, jets, 0, m).0.len() + 4 <= usize::MAX,
        count + trimmed_jets(g, j, jets, 0, m) + run_trimmed(g, j, jets, 0, m).0.len() + 4
            <= usize::MAX,
{
    lemma_jets_of_a_run(g, j, jets, 0, m);
    lemma_run_bounds(g, j, jets, 0, m);
    lemma_trimming_keeps_height(g, j, jets, 0, m);
    let len = g.len() as int;
    assert(m * (len + 4 * m) + (len + 4 * m + 4) <= rounds * (len + 4 * rounds + 4))
        by (nonlinear_arith)
        requires
            0 <= m < rounds,
            len >= 0,
    ;
}

/// In an empty shaft every rock falls to the floor.
pub proof fn lemma_rest_in_empty(shape: RockShape, jets: Seq<u8>, x: int, y: int, j: int)
    requires
        0 <= y,
    ensures
        rest(Seq::empty(), shape, jets, x, y, j).1 == 0,
    decreases y,
{
    let g = Seq::<Seq<bool>>::empty();
    let x1 = pushed(g, shape, x, y, jets[j]);
    if y > 0 {
        lemma_spawn_is_free(g, shape, x1, y - 1);
        lemma_rest_in_empty(shape, jets, x1, y - 1, next_jet(jets, j));
    }
}

/// No rocks, no tower; and the first rock, the flat one, lies on the floor
/// and makes a tower one row high, and four jets are used on its way.
pub proof fn lemma_first_heights(jets: Seq<u8>)
    ensures
        tower_height(jets, 0) == 0,
        tower_height(jets, 1) == 1,
        run_jets(Seq::empty(), 0, jets, 0, 0) == 0,
        run_jets(Seq::empty(), 0, jets, 0, 1) == 4,
        jets_used(Seq::empty(), RockShape::Horizontal, jets, 0) == 4,
{
    let g = Seq::<Seq<bool>>::empty();
    assert(run(g, 0, jets, 0, 0) == (g, 0int));
    assert(shape_at(0) == RockShape::Horizontal);
    lemma_rest_in_empty(RockShape::Horizontal, jets, 2, 3, 0);
    assert(run(g, 0, jets, 0, 1) == drop_rock(g, RockShape::Horizontal, jets, 0)) by {
        reveal_with_fuel(run, 2);
    }
    assert(run_jets(g, 0, jets, 0, 1) == jets_used(g, RockShape::Horizontal, jets, 0)) by {
        reveal_with_fuel(run_jets, 2);
    }
}

} // verus!
