//! The five rock shapes and the cells each one covers.

use vstd::prelude::*;

verus! {

/// The cells of each shape, top row first, left column first.
pub const BLOCKS_HORIZONTAL: [[bool; 4]; 1] = [[true, true, true, true]];

pub const BLOCKS_PLUS: [[bool; 4]; 3] = [
    [false, true, false, false],
    [true, true, true, false],
    [false, true, false, false],
];

pub const BLOCKS_L: [[bool; 4]; 3] = [
    [false, false, true, false],
    [false, false, true, false],
    [true, true, true, false],
];

pub const BLOCKS_VERTICAL: [[bool; 4]; 4] = [
    [true, false, false, false],
    [true, false, false, false],
    [true, false, false, false],
    [true, false, false, false],
];

pub const BLOCKS_SQUARE: [[bool; 4]; 2] = [[true, true, false, false], [true, true, false, false]];

/// The shapes of the rocks, in the order in which they fall.
#[derive(Debug, Clone, Copy, PartialEq, Eq, Structural)]
pub enum RockShape {
    Horizontal,
    Plus,
    L,
    Vertical,
    Square,
}

/// The shape of the rock with the given index: the five shapes in turn.
pub open spec fn shape_at(i: int) -> RockShape {
    let k = i % 5;
    if k == 0 {
        RockShape::Horizontal
    } else if k == 1 {
        RockShape::Plus
    } else if k == 2 {
        RockShape::L
    } else if k == 3 {
        RockShape::Vertical
    } else {
        RockShape::Square
    }
}

/// The shape of the rock with the given index.
pub fn rock_shape(rock_index: u64) -> (shape: RockShape)
    ensures
        shape == shape_at(rock_index as int),
{
    let k: u64 = rock_index % 5;
    if k == 0 {
        RockShape::Horizontal
    } else if k == 1 {
        RockShape::Plus
    } else if k == 2 {
        RockShape::L
    } else if k == 3 {
        RockShape::Vertical
    } else {
        RockShape::Square
    }
}

impl RockShape {
    /// Number of columns the shape spans.
    pub open spec fn spec_width(self) -> int {
        match self {
            RockShape::Horizontal => 4,
            RockShape::Plus => 3,
            RockShape::L => 3,
            RockShape::Vertical => 1,
            RockShape::Square => 2,
        }
    }

    /// Number of rows the shape spans.
    pub open spec fn spec_height(self) -> int {
        match self {
            RockShape::Horizontal => 1,
            RockShape::Plus => 3,
            RockShape::L => 3,
            RockShape::Vertical => 4,
            RockShape::Square => 2,
        }
    }

    /// Whether the shape covers the cell `dx` columns right of and `dy` rows
    /// above its bottom-left corner.
    pub open spec fn covers(self, dx: int, dy: int) -> bool {
        match self {
            RockShape::Horizontal => dy == 0 && 0 <= dx < 4,
            RockShape::Plus => (dy == 1 && 0 <= dx < 3) || (dx == 1 && 0 <= dy < 3),
            RockShape::L => (dy == 0 && 0 <= dx < 3) || (dx == 2 && 0 <= dy < 3),
            RockShape::Vertical => dx == 0 && 0 <= dy < 4,
            RockShape::Square => 0 <= dx < 2 && 0 <= dy < 2,
        }
    }

    /// A column in which the shape covers a cell of every one of its rows.
    pub open spec fn spine(self) -> int {
        match self {
            RockShape::Plus => 1,
            RockShape::L => 2,
            _ => 0,
        }
    }

    /// Number of columns the shape spans.
    pub fn width(&self) -> (w: usize)
        ensures
            w == self.spec_width(),
    {
        match self {
            RockShape::Horizontal => 4,
            RockShape::Plus => 3,
            RockShape::L => 3,
            RockShape::Vertical => 1,
            RockShape::Square => 2,
        }
    }

    /// The rows of the shape from its top row down, four cells each.
    pub fn blocks(&self) -> (rows: &'static [[bool; 4]])
        ensures
            rows@.len() == self.spec_height(),
            forall|dx: int, dy: int|
                0 <= dx < 4 && 0 <= dy < self.spec_height() ==> rows@[self.spec_height() - 1
                    - dy]@[dx] == self.covers(dx, dy),
    {
        match self {
            RockShape::Horizontal => BLOCKS_HORIZONTAL.as_slice(),
            RockShape::Plus => BLOCKS_PLUS.as_slice(),
            RockShape::L => BLOCKS_L.as_slice(),
            RockShape::Vertical => BLOCKS_VERTICAL.as_slice(),
            RockShape::Square => BLOCKS_SQUARE.as_slice(),
        }
    }
}

/// Every covered cell lies within the shape's width and height, and the
/// spine column holds a cell of each row of the shape.
pub proof fn lemma_covers_bounds(shape: RockShape, dx: int, dy: int)
    ensures
        shape.covers(dx, dy) ==> 0 <= dx < shape.spec_width() && 0 <= dy < shape.spec_height(),
        0 <= dy < shape.spec_height() ==> shape.covers(shape.spine(), dy),
        0 <= shape.spine() < shape.spec_width(),
        1 <= shape.spec_width() <= 4,
        1 <= shape.spec_height() <= 4,
{
}

} // verus!
