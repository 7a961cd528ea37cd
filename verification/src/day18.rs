//! Unit cubes on a lattice and the box around them.

use vstd::prelude::*;
use crate::text::{copy_part, find_byte, next_byte, parse_isize, signed_value};

pub mod surface;

verus! {

#[derive(Debug, Clone, Copy, PartialEq, Eq, Hash, Structural)]
pub struct Coord(pub isize, pub isize, pub isize);

/// A box of lattice points: for each axis the least and the greatest
/// coordinate, both included.
#[derive(Debug, Clone, Copy, PartialEq, Eq)]
pub struct Cuboid(pub (isize, isize), pub (isize, isize), pub (isize, isize));

impl Coord {
    /// No coordinate is at the edge of the machine's integers.
    pub open spec fn inner(&self) -> bool {
        &&& isize::MIN < self.0 < isize::MAX
        &&& isize::MIN < self.1 < isize::MAX
        &&& isize::MIN < self.2 < isize::MAX
    }

    /// The six points that differ by one in one coordinate.
    pub fn neighbours(&self) -> (around: [Coord; 6])
        requires
            self.inner(),
        ensures
            around@ == seq![
                Coord((self.0 - 1) as isize, self.1, self.2),
                Coord((self.0 + 1) as isize, self.1, self.2),
                Coord(self.0, (self.1 - 1) as isize, self.2),
                Coord(self.0, (self.1 + 1) as isize, self.2),
                Coord(self.0, self.1, (self.2 - 1) as isize),
                Coord(self.0, self.1, (self.2 + 1) as isize),
            ],
    {
        let around = [
            Coord(self.0 - 1, self.1, self.2),
            Coord(self.0 + 1, self.1, self.2),
            Coord(self.0, self.1 - 1, self.2),
            Coord(self.0, self.1 + 1, self.2),
            Coord(self.0, self.1, self.2 - 1),
            Coord(self.0, self.1, self.2 + 1),
        ];
        assert(around@ =~= seq![
            Coord((self.0 - 1) as isize, self.1, self.2),
            Coord((self.0 + 1) as isize, self.1, self.2),
            Coord(self.0, (self.1 - 1) as isize, self.2),
            Coord(self.0, (self.1 + 1) as isize, self.2),
            Coord(self.0, self.1, (self.2 - 1) as isize),
            Coord(self.0, self.1, (self.2 + 1) as isize),
        ]);
        around
    }
}

impl Cuboid {
    /// Whether the point lies in the box.
    pub open spec fn holds(&self, coord: Coord) -> bool {
        &&& self.0.0 <= coord.0 <= self.0.1
        &&& self.1.0 <= coord.1 <= self.1.1
        &&& self.2.0 <= coord.2 <= self.2.1
    }

    /// The corner with the least coordinates.
    pub fn min_coord(&self) -> (corner: Coord)
        ensures
            corner == Coord(self.0.0, self.1.0, self.2.0),
    {
        Coord(self.0.0, self.1.0, self.2.0)
    }

    pub fn contains(&self, coord: &Coord) -> (yes: bool)
        ensures
            yes == self.holds(*coord),
    {
        self.0.0 <= coord.0 && coord.0 <= self.0.1 && self.1.0 <= coord.1 && coord.1 <= self.1.1
            && self.2.0 <= coord.2 && coord.2 <= self.2.1
    }
}

/// The box is the smallest one that holds every point of `coords` with a
/// margin of one on every side.
pub open spec fn bounds_with_margin(coords: Seq<Coord>, b: Cuboid) -> bool {
    &&& forall|i: int|
        0 <= i < coords.len() ==> b.0.0 < (#[trigger] coords[i]).0 < b.0.1 && b.1.0 < coords[i].1
            < b.1.1 && b.2.0 < coords[i].2 < b.2.1
    &&& exists|i: int| 0 <= i < coords.len() && (#[trigger] coords[i]).0 == b.0.0 + 1
    &&& exists|i: int| 0 <= i < coords.len() && (#[trigger] coords[i]).0 == b.0.1 - 1
    &&& exists|i: int| 0 <= i < coords.len() && (#[trigger] coords[i]).1 == b.1.0 + 1
    &&& exists|i: int| 0 <= i < coords.len() && (#[trigger] coords[i]).1 == b.1.1 - 1
    &&& exists|i: int| 0 <= i < coords.len() && (#[trigger] coords[i]).2 == b.2.0 + 1
    &&& exists|i: int| 0 <= i < coords.len() && (#[trigger] coords[i]).2 == b.2.1 - 1
}

/// The bounding box of the points, one wider in every direction.
pub fn expanded_bounding_box(coords: &Vec<Coord>) -> (b: Cuboid)
    requires
        coords@.len() > 0,
        forall|i: int| 0 <= i < coords@.len() ==> (#[trigger] coords@[i]).inner(),
    ensures
        bounds_with_margin(coords@, b),
{
    let first = coords[0];
    let mut lo = first;
    let mut hi = first;
    let ghost mut at = (0int, 0int, 0int, 0int, 0int, 0int);
    let mut i: usize = 1;
    while i < coords.len()
        invariant
            1 <= i <= coords@.len(),
            forall|k: int| 0 <= k < coords@.len() ==> (#[trigger] coords@[k]).inner(),
            forall|k: int|
                0 <= k < i ==> lo.0 <= (#[trigger] coords@[k]).0 <= hi.0 && lo.1 <= coords@[k].1
                    <= hi.1 && lo.2 <= coords@[k].2 <= hi.2,
            0 <= at.0 < i && coords@[at.0].0 == lo.0,
            0 <= at.1 < i && coords@[at.1].0 == hi.0,
            0 <= at.2 < i && coords@[at.2].1 == lo.1,
            0 <= at.3 < i && coords@[at.3].1 == hi.1,
            0 <= at.4 < i && coords@[at.4].2 == lo.2,
            0 <= at.5 < i && coords@[at.5].2 == hi.2,
        decreases coords@.len() - i,
    {
        let c = coords[i];
        if c.0 < lo.0 {
            lo = Coord(c.0, lo.1, lo.2);
            proof {
                at = (i as int, at.1, at.2, at.3, at.4, at.5);
            }
        }
        if c.0 > hi.0 {
            hi = Coord(c.0, hi.1, hi.2);
            proof {
                at = (at.0, i as int, at.2, at.3, at.4, at.5);
            }
        }
        if c.1 < lo.1 {
            lo = Coord(lo.0, c.1, lo.2);
            proof {
                at = (at.0, at.1, i as int, at.3, at.4, at.5);
            }
        }
        if c.1 > hi.1 {
            hi = Coord(hi.0, c.1, hi.2);
            proof {
                at = (at.0, at.1, at.2, i as int, at.4, at.5);
            }
        }
        if c.2 < lo.2 {
            lo = Coord(lo.0, lo.1, c.2);
            proof {
                at = (at.0, at.1, at.2, at.3, i as int, at.5);
            }
        }
        if c.2 > hi.2 {
            hi = Coord(hi.0, hi.1, c.2);
            proof {
                at = (at.0, at.1, at.2, at.3, at.4, i as int);
            }
        }
        i += 1;
    }
    proof {
        assert(coords@[at.0].inner() && coords@[at.1].inner() && coords@[at.2].inner());
        assert(coords@[at.3].inner() && coords@[at.4].inner() && coords@[at.5].inner());
    }
    let b = Cuboid((lo.0 - 1, hi.0 + 1), (lo.1 - 1, hi.1 + 1), (lo.2 - 1, hi.2 + 1));
    proof {
        assert(coords@[at.0].0 == b.0.0 + 1);
        assert(coords@[at.1].0 == b.0.1 - 1);
        assert(coords@[at.2].1 == b.1.0 + 1);
        assert(coords@[at.3].1 == b.1.1 - 1);
        assert(coords@[at.4].2 == b.2.0 + 1);
        assert(coords@[at.5].2 == b.2.1 - 1);
    }
    b
}

/// The whole number that the text stands for, if it stands for one that
/// fits.
pub open spec fn coordinate_of(s: Seq<u8>) -> Option<isize> {
    match signed_value(s) {
        Some(v) => if isize::MIN <= v <= isize::MAX {
            Some(v as isize)
        } else {
            None
        },
        None => None,
    }
}

/// The cube that a line stands for: three whole numbers with commas
/// between them.
pub open spec fn cube_of(line: Seq<u8>) -> Option<Coord> {
    let first = next_byte(line, 44, 0);
    let second = next_byte(line, 44, first + 1);
    if first >= line.len() || second >= line.len() {
        None
    } else {
        match (
            coordinate_of(line.subrange(0, first)),
            coordinate_of(line.subrange(first + 1, second)),
            coordinate_of(line.subrange(second + 1, line.len() as int)),
        ) {
            (Some(x), Some(y), Some(z)) => Some(Coord(x, y, z)),
            _ => None,
        }
    }
}

/// The cube that the bytes of a line stand for, if they stand for one.
pub fn read_cube(line: &[u8]) -> (cube: Option<Coord>)
    ensures
        cube == cube_of(line@),
{
    let first = find_byte(line, 44, 0);
    if first >= line.len() {
        return None;
    }
    let second = find_byte(line, 44, first + 1);
    if second >= line.len() {
        return None;
    }
    let x = parse_isize(copy_part(line, 0, first).as_slice());
    let y = parse_isize(copy_part(line, first + 1, second).as_slice());
    let z = parse_isize(copy_part(line, second + 1, line.len()).as_slice());
    match (x, y, z) {
        (Some(x), Some(y), Some(z)) => Some(Coord(x, y, z)),
        _ => None,
    }
}

} // verus!
