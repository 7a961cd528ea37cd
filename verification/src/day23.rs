//! Elves spread over a field, and the rectangle that holds them all.

use vstd::prelude::*;

pub mod rounds;

verus! {

/// Where the search for the edges of the rectangle starts: no edge is
/// found farther in than this.
pub const FAR: isize = 100000;

/// The least of the numbers picked from the elves and of `start`.
pub open spec fn least(elves: Seq<(isize, isize)>, pick: spec_fn((isize, isize)) -> isize, start: int) -> int
    decreases elves.len(),
{
    if elves.len() == 0 {
        start
    } else {
        let rest = least(elves.drop_last(), pick, start);
        if pick(elves.last()) < rest {
            pick(elves.last()) as int
        } else {
            rest
        }
    }
}

/// The greatest of the numbers picked from the elves and of `start`.
pub open spec fn most(elves: Seq<(isize, isize)>, pick: spec_fn((isize, isize)) -> isize, start: int) -> int
    decreases elves.len(),
{
    if elves.len() == 0 {
        start
    } else {
        let rest = most(elves.drop_last(), pick, start);
        if pick(elves.last()) > rest {
            pick(elves.last()) as int
        } else {
            rest
        }
    }
}

/// The column of an elf.
pub open spec fn column() -> spec_fn((isize, isize)) -> isize {
    |elf: (isize, isize)| elf.0
}

/// The row of an elf.
pub open spec fn row() -> spec_fn((isize, isize)) -> isize {
    |elf: (isize, isize)| elf.1
}

/// The number of places of the rectangle that holds the elves.
pub open spec fn area(elves: Seq<(isize, isize)>) -> int {
    (most(elves, column(), -FAR) - least(elves, column(), FAR as int) + 1) * (most(
        elves,
        row(),
        -FAR,
    ) - least(elves, row(), FAR as int) + 1)
}

/// The least and the greatest column, and the least and the greatest row,
/// that an elf stands in.
pub fn bounds(elves: &Vec<(isize, isize)>) -> (edges: ((isize, isize), (isize, isize)))
    ensures
        edges.0.0 == least(elves@, column(), FAR as int),
        edges.0.1 == most(elves@, column(), -FAR),
        edges.1.0 == least(elves@, row(), FAR as int),
        edges.1.1 == most(elves@, row(), -FAR),
{
    let mut min_x: isize = 100000;
    let mut max_x: isize = -100000;
    let mut min_y: isize = 100000;
    let mut max_y: isize = -100000;
    let mut i: usize = 0;
    assert(elves@.subrange(0, 0) =~= Seq::<(isize, isize)>::empty());
    while i < elves.len()
        invariant
            i <= elves@.len(),
            min_x == least(elves@.subrange(0, i as int), column(), FAR as int),
            max_x == most(elves@.subrange(0, i as int), column(), -FAR),
            min_y == least(elves@.subrange(0, i as int), row(), FAR as int),
            max_y == most(elves@.subrange(0, i as int), row(), -FAR),
        decreases elves@.len() - i,
    {
        let elf = elves[i];
        proof {
            let longer = elves@.subrange(0, i + 1);
            assert(longer.drop_last() =~= elves@.subrange(0, i as int));
            assert(longer.last() == elf);
        }
        if elf.0 < min_x {
            min_x = elf.0;
        }
        if elf.1 < min_y {
            min_y = elf.1;
        }
        if elf.0 > max_x {
            max_x = elf.0;
        }
        if elf.1 > max_y {
            max_y = elf.1;
        }
        i += 1;
    }
    assert(elves@.subrange(0, i as int) =~= elves@);
    ((min_x, max_x), (min_y, max_y))
}

/// The number of places of the rectangle that holds the elves on which no
/// elf stands, the elves standing on different places.
pub fn num_free_spaces(elves: &Vec<(isize, isize)>) -> (free: usize)
    requires
        elves@.len() > 0,
        elves@.len() <= area(elves@) <= usize::MAX,
    ensures
        free == area(elves@) - elves@.len(),
{
    let (xrange, yrange) = bounds(elves);
    let ghost across = xrange.1 - xrange.0 + 1;
    let ghost along = yrange.1 - yrange.0 + 1;
    proof {
        lemma_edges_in_order(elves@, column());
        lemma_edges_in_order(elves@, row());
        assert(column()(elves@[0]) == elves@[0].0);
        assert(row()(elves@[0]) == elves@[0].1);
        assert(across >= 1 && along >= 1);
        assert(across <= across * along && along <= across * along) by (nonlinear_arith)
            requires
                across >= 1,
                along >= 1,
        ;
    }
    let width = (xrange.1 as i128 - xrange.0 as i128 + 1) as usize;
    let height = (yrange.1 as i128 - yrange.0 as i128 + 1) as usize;
    width * height - elves.len()
}

/// Every picked number lies between the least and the greatest, and these
/// no farther out than the machine's integers reach.
pub proof fn lemma_edges_in_order(elves: Seq<(isize, isize)>, pick: spec_fn((isize, isize)) -> isize)
    ensures
        forall|i: int|
            0 <= i < elves.len() ==> least(elves, pick, FAR as int) <= #[trigger] pick(elves[i])
                <= most(elves, pick, -FAR),
        isize::MIN <= least(elves, pick, FAR as int) <= FAR,
        -FAR <= most(elves, pick, -FAR) <= isize::MAX,
    decreases elves.len(),
{
    if elves.len() > 0 {
        let front = elves.drop_last();
        lemma_edges_in_order(front, pick);
        assert forall|i: int| 0 <= i < elves.len() implies least(elves, pick, FAR as int)
            <= #[trigger] pick(elves[i]) <= most(elves, pick, -FAR) by {
            if i < front.len() {
                assert(front[i] == elves[i]);
            }
        }
    }
}

} // verus!
