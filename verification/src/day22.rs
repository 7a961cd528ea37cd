//! An agent that walks over a board whose edges wrap round, turning where
//! the wrap turns it.

use vstd::prelude::*;
use vstd::pervasive::unreached;
use vstd::string::StringSliceAdditionalSpecFns;
use crate::text::copy_part;
use crate::text::{parse_usize, unsigned_value};

pub mod input;

verus! {

#[derive(Debug, Clone, Copy, PartialEq, Eq, Structural)]
pub enum Direction {
    North,
    East,
    South,
    West,
}

#[derive(Debug, Clone, Copy, PartialEq, Eq, Structural)]
pub enum Rotation {
    Right,
    Left,
    Half,
    Nothing,
}

#[derive(Debug, Clone, Copy, PartialEq, Eq)]
pub enum Instruction {
    Advance(usize),
    Turn(Rotation),
}

/// For each direction the place that one step leads to, and how the step
/// turns the walker; `None` where a wall is in the way.
#[derive(Debug, Clone, Copy, PartialEq, Eq)]
pub struct MapCell {
    pub north: Option<((usize, usize), Rotation)>,
    pub east: Option<((usize, usize), Rotation)>,
    pub south: Option<((usize, usize), Rotation)>,
    pub west: Option<((usize, usize), Rotation)>,
}

/// The cells of the board by row and column; `None` where the board has no
/// cell to stand on.
#[derive(Debug, PartialEq, Eq)]
pub struct WrapMap {
    pub rows: Vec<Vec<Option<MapCell>>>,
}

#[derive(Debug, Clone, Copy, PartialEq, Eq)]
pub struct Agent {
    pub position: (usize, usize),
    pub direction: Direction,
}

impl Direction {
    /// The direction a quarter turn to the right.
    pub open spec fn right(self) -> Direction {
        match self {
            Direction::North => Direction::East,
            Direction::East => Direction::South,
            Direction::South => Direction::West,
            Direction::West => Direction::North,
        }
    }

    /// The direction a quarter turn to the left.
    pub open spec fn left(self) -> Direction {
        match self {
            Direction::North => Direction::West,
            Direction::East => Direction::North,
            Direction::South => Direction::East,
            Direction::West => Direction::South,
        }
    }

    /// The direction after the rotation.
    pub open spec fn rotated(self, rotation: Rotation) -> Direction {
        match rotation {
            Rotation::Right => self.right(),
            Rotation::Left => self.left(),
            Rotation::Half => self.left().left(),
            Rotation::Nothing => self,
        }
    }

    /// The number that stands for the direction in a password.
    pub open spec fn spec_password_score(self) -> int {
        match self {
            Direction::East => 0,
            Direction::South => 1,
            Direction::West => 2,
            Direction::North => 3,
        }
    }

    pub fn turn_right(&self) -> (d: Direction)
        ensures
            d == self.right(),
            d.left() == *self,
    {
        match self {
            Direction::North => Direction::East,
            Direction::East => Direction::South,
            Direction::South => Direction::West,
            Direction::West => Direction::North,
        }
    }

    pub fn turn_left(&self) -> (d: Direction)
        ensures
            d == self.left(),
            d.right() == *self,
    {
        match self {
            Direction::North => Direction::West,
            Direction::East => Direction::North,
            Direction::South => Direction::East,
            Direction::West => Direction::South,
        }
    }

    pub fn password_score(&self) -> (score: usize)
        ensures
            score == self.spec_password_score(),
    {
        match self {
            Direction::East => 0,
            Direction::South => 1,
            Direction::West => 2,
            Direction::North => 3,
        }
    }
}

impl MapCell {
    /// Where a step in the direction leads.
    pub open spec fn spec_step(&self, direction: Direction) -> Option<((usize, usize), Rotation)> {
        match direction {
            Direction::North => self.north,
            Direction::East => self.east,
            Direction::South => self.south,
            Direction::West => self.west,
        }
    }

    pub fn step(&self, direction: &Direction) -> (next: &Option<((usize, usize), Rotation)>)
        ensures
            *next == self.spec_step(*direction),
    {
        match direction {
            Direction::North => &self.north,
            Direction::East => &self.east,
            Direction::South => &self.south,
            Direction::West => &self.west,
        }
    }

    /// The cell with the step in one direction replaced.
    pub fn update_dir(&self, direction: &Direction, next: Option<((usize, usize), Rotation)>) -> (cell:
        MapCell)
        ensures
            cell.spec_step(*direction) == next,
            forall|other: Direction|
                other != *direction ==> cell.spec_step(other) == self.spec_step(other),
    {
        match direction {
            Direction::North => MapCell {
                north: next,
                east: self.east,
                south: self.south,
                west: self.west,
            },
            Direction::East => MapCell {
                north: self.north,
                east: next,
                south: self.south,
                west: self.west,
            },
            Direction::South => MapCell {
                north: self.north,
                east: self.east,
                south: next,
                west: self.west,
            },
            Direction::West => MapCell {
                north: self.north,
                east: self.east,
                south: self.south,
                west: next,
            },
        }
    }
}

impl WrapMap {
    /// The cell at the position, if the board has one there.
    pub open spec fn cell(&self, position: (usize, usize)) -> Option<MapCell> {
        if position.1 < self.rows@.len() && position.0 < self.rows@[position.1 as int]@.len() {
            self.rows@[position.1 as int]@[position.0 as int]
        } else {
            None
        }
    }

    /// Whether a step from the position in the direction, if there is one,
    /// leads to a cell of the board.
    pub open spec fn leads_within(&self, position: (usize, usize), direction: Direction) -> bool {
        match self.cell(position) {
            Some(cell) => match cell.spec_step(direction) {
                Some((next, _)) => self.cell(next) is Some,
                None => true,
            },
            None => true,
        }
    }

    /// Every step from a cell of the board leads to a cell of the board.
    pub open spec fn closed(&self) -> bool {
        forall|position: (usize, usize), direction: Direction| #[trigger]
            self.leads_within(position, direction)
    }

    /// The cell at the position, if the board has one there.
    pub fn get(&self, position: &(usize, usize)) -> (found: Option<MapCell>)
        ensures
            found == self.cell(*position),
    {
        if position.1 < self.rows.len() && position.0 < self.rows[position.1].len() {
            self.rows[position.1][position.0]
        } else {
            None
        }
    }
}

/// Where an agent at `position`, facing `direction`, is after up to `steps`
/// steps: it stops early where a wall is in the way.
pub open spec fn walk(
    map: &WrapMap,
    position: (usize, usize),
    direction: Direction,
    steps: nat,
) -> ((usize, usize), Direction)
    decreases steps,
{
    if steps == 0 {
        (position, direction)
    } else {
        match map.cell(position) {
            Some(cell) => match cell.spec_step(direction) {
                Some((next, rotation)) => walk(
                    map,
                    next,
                    direction.rotated(rotation),
                    (steps - 1) as nat,
                ),
                None => (position, direction),
            },
            None => (position, direction),
        }
    }
}

impl Agent {
    /// The password of the agent's row, column and direction.
    pub open spec fn spec_password_score(&self) -> int {
        1000 * (self.position.1 + 1) + 4 * (self.position.0 + 1)
            + self.direction.spec_password_score()
    }

    /// Walks up to `steps` steps, stopping early at a wall.
    pub fn advance(&mut self, steps: usize, map: &WrapMap)
        requires
            map.closed(),
            map.cell(old(self).position) is Some,
        ensures
            (final(self).position, final(self).direction) == walk(
                map,
                old(self).position,
                old(self).direction,
                steps as nat,
            ),
            map.cell(final(self).position) is Some,
    {
        let mut done: usize = 0;
        while done < steps
            invariant
                done <= steps,
                map.closed(),
                map.cell(self.position) is Some,
                walk(map, old(self).position, old(self).direction, steps as nat) == walk(
                    map,
                    self.position,
                    self.direction,
                    (steps - done) as nat,
                ),
            decreases steps - done,
        {
            let cur_cell = map.get(&self.position);
            assert(map.leads_within(self.position, self.direction));
            match cur_cell {
                Some(cell) => {
                    let next_pos = cell.step(&self.direction);
                    match next_pos {
                        Some((pos, rot)) => {
                            self.position = *pos;
                            self.turn(rot);
                        },
                        None => {
                            return ;
                        },
                    }
                },
                None => {
                    return ;
                },
            }
            done += 1;
        }
    }

    pub fn turn(&mut self, rotation: &Rotation)
        ensures
            final(self).direction == old(self).direction.rotated(*rotation),
            final(self).position == old(self).position,
    {
        match rotation {
            Rotation::Right => {
                self.direction = self.direction.turn_right();
            },
            Rotation::Left => {
                self.direction = self.direction.turn_left();
            },
            Rotation::Half => {
                self.direction = self.direction.turn_left().turn_left();
            },
            Rotation::Nothing => {},
        }
    }

    pub fn password_score(&self) -> (score: usize)
        requires
            self.spec_password_score() <= usize::MAX,
        ensures
            score == self.spec_password_score(),
    {
        1000 * (self.position.1 + 1) + 4 * (self.position.0 + 1) + self.direction.password_score()
    }
}

/// The instruction to walk as far as the numeral from `start` up to `end`
/// says; nothing if there is no byte between the two; `None` if the bytes
/// are no numeral of a number that fits.
pub open spec fn advance_of(s: Seq<u8>, start: int, end: int) -> Option<Seq<Instruction>> {
    if end <= start {
        Some(Seq::empty())
    } else {
        match unsigned_value(s.subrange(start, end)) {
            Some(n) => if n <= usize::MAX {
                Some(seq![Instruction::Advance(n as usize)])
            } else {
                None
            },
            None => None,
        }
    }
}

/// The instructions that the text tells of from `start` on, when the bytes
/// up to `i` have been seen to be no turns: numerals say how far to walk,
/// the letters `L` and `R` which way to turn.
pub open spec fn scan(s: Seq<u8>, start: int, i: int) -> Option<Seq<Instruction>>
    decreases s.len() - i,
{
    if i >= s.len() {
        advance_of(s, start, s.len() as int)
    } else if s[i] == 76 || s[i] == 82 {
        let turn = if s[i] == 76 {
            Instruction::Turn(Rotation::Left)
        } else {
            Instruction::Turn(Rotation::Right)
        };
        match (advance_of(s, start, i), scan(s, i + 1, i + 1)) {
            (Some(walk), Some(rest)) => Some(walk + seq![turn] + rest),
            _ => None,
        }
    } else {
        scan(s, start, i + 1)
    }
}

/// The instructions that the text tells of.
pub open spec fn instructions_of(s: Seq<u8>) -> Option<Seq<Instruction>> {
    scan(s, 0, 0)
}

/// The instructions after `done`, if there are any to come.
pub open spec fn and_then(done: Seq<Instruction>, more: Option<Seq<Instruction>>) -> Option<
    Seq<Instruction>,
> {
    match more {
        Some(rest) => Some(done + rest),
        None => None,
    }
}

/// The instructions that the bytes of a line tell of, if they tell of any.
pub fn read_instructions(bytes: &[u8]) -> (instrs: Option<Vec<Instruction>>)
    ensures
        match instrs {
            Some(found) => instructions_of(bytes@) == Some(found@),
            None => instructions_of(bytes@) is None,
        },
{
    let ghost s = bytes@;
    let mut start: usize = 0;
    let mut instrs: Vec<Instruction> = Vec::new();
    let mut i: usize = 0;
    assert(Seq::<Instruction>::empty() + scan(s, 0, 0).unwrap() =~= scan(s, 0, 0).unwrap());
    while i < bytes.len()
        invariant
            start <= i <= bytes@.len(),
            s == bytes@,
            instructions_of(s) == and_then(instrs@, scan(s, start as int, i as int)),
        decreases bytes@.len() - i,
    {
        let c = bytes[i];
        if c == 76 || c == 82 {
            let ghost before = instrs@;
            if i > start {
                match parse_usize(copy_part(bytes, start, i).as_slice()) {
                    Some(n) => {
                        instrs.push(Instruction::Advance(n));
                    },
                    None => {
                        return None;
                    },
                }
            }
            if c == 76 {
                instrs.push(Instruction::Turn(Rotation::Left));
            } else {
                instrs.push(Instruction::Turn(Rotation::Right));
            }
            proof {
                let walk = advance_of(s, start as int, i as int).unwrap();
                let turn = instrs@.last();
                assert(instrs@ =~= before + walk + seq![turn]);
                if scan(s, i + 1, i + 1) is Some {
                    let rest = scan(s, i + 1, i + 1).unwrap();
                    assert(before + (walk + seq![turn] + rest) =~= instrs@ + rest);
                }
            }
            start = i + 1;
        }
        i += 1;
    }
    if i > start {
        match parse_usize(copy_part(bytes, start, i).as_slice()) {
            Some(n) => {
                let ghost before = instrs@;
                instrs.push(Instruction::Advance(n));
                assert(instrs@ =~= before + seq![Instruction::Advance(n)]);
            },
            None => {
                return None;
            },
        }
    } else {
        assert(instrs@ + Seq::<Instruction>::empty() =~= instrs@);
    }
    Some(instrs)
}

/// The instructions that a line tells of.
pub fn parse_instructions(line: &str) -> (instrs: Vec<Instruction>)
    requires
        instructions_of(line.spec_bytes()) is Some,
    ensures
        instructions_of(line.spec_bytes()) == Some(instrs@),
{
    match read_instructions(line.as_bytes()) {
        Some(instrs) => instrs,
        None => unreached(),
    }
}

/// A run of numbers, one for each step along an edge: rising by one from
/// the first, falling by one from the first, or the same throughout.
#[derive(Debug, Clone, Copy, PartialEq, Eq)]
pub enum Run {
    Rising(usize),
    Falling(usize),
    Level(usize),
}

/// The number of places along an edge of the cube.
pub const EDGE: usize = 50;

impl Run {
    /// The number at step `i` of the run.
    pub open spec fn at(self, i: int) -> int {
        match self {
            Run::Rising(first) => first + i,
            Run::Falling(first) => first - i,
            Run::Level(value) => value as int,
        }
    }

    /// Every number of the first `EDGE` steps fits the machine's integers.
    pub open spec fn fits(self) -> bool {
        match self {
            Run::Rising(first) => first + EDGE <= usize::MAX,
            Run::Falling(first) => first + 1 >= EDGE,
            Run::Level(_) => true,
        }
    }

    /// The number at step `i` of the run.
    pub fn value(&self, i: usize) -> (v: usize)
        requires
            self.fits(),
            i < EDGE,
        ensures
            v == self.at(i as int),
    {
        match self {
            Run::Rising(first) => *first + i,
            Run::Falling(first) => *first - i,
            Run::Level(value) => *value,
        }
    }
}

/// How the places of one edge are joined to those of another: where the
/// places to leave and the places to come to lie, the direction in which
/// the first are left, and how coming to the second turns the walker.
#[derive(Debug, Clone, Copy, PartialEq, Eq)]
pub struct Seam {
    pub from_xs: Run,
    pub from_ys: Run,
    pub to_xs: Run,
    pub to_ys: Run,
    pub from_direction: Direction,
    pub rotation: Rotation,
}

impl Seam {
    /// The place to leave at step `i`.
    pub open spec fn from(self, i: int) -> (usize, usize) {
        (self.from_xs.at(i) as usize, self.from_ys.at(i) as usize)
    }

    /// The place to come to at step `i`.
    pub open spec fn to(self, i: int) -> (usize, usize) {
        (self.to_xs.at(i) as usize, self.to_ys.at(i) as usize)
    }

    /// All four runs fit the machine's integers.
    pub open spec fn fits(self) -> bool {
        self.from_xs.fits() && self.from_ys.fits() && self.to_xs.fits() && self.to_ys.fits()
    }
}

impl MapCell {
    /// The cell with the step in one direction replaced.
    pub open spec fn with_dir(self, direction: Direction, next: Option<((usize, usize), Rotation)>) -> MapCell {
        match direction {
            Direction::North => MapCell { north: next, ..self },
            Direction::East => MapCell { east: next, ..self },
            Direction::South => MapCell { south: next, ..self },
            Direction::West => MapCell { west: next, ..self },
        }
    }
}

/// The cell at `position` once the first `k` places of the seam are
/// joined: at each of these places, if the board has a cell there, the
/// step in the seam's direction leads to the place across the seam, with
/// the seam's rotation, or is barred if the board has no cell across.
pub open spec fn joined(
    cells: spec_fn((usize, usize)) -> Option<MapCell>,
    seam: Seam,
    position: (usize, usize),
    k: nat,
) -> Option<MapCell>
    decreases k,
{
    if k == 0 {
        cells(position)
    } else {
        let before = joined(cells, seam, position, (k - 1) as nat);
        let to = seam.to(k - 1);
        let next = if cells(to) is Some {
            Some((to, seam.rotation))
        } else {
            None
        };
        match before {
            Some(cell) => if position == seam.from(k - 1) {
                Some(cell.with_dir(seam.from_direction, next))
            } else {
                before
            },
            None => None,
        }
    }
}

/// Joining places of a seam leaves the board with cells where it had
/// cells and without where it had none.
pub proof fn lemma_joined_keeps_cells(
    cells: spec_fn((usize, usize)) -> Option<MapCell>,
    seam: Seam,
    position: (usize, usize),
    k: nat,
)
    ensures
        joined(cells, seam, position, k) is Some <==> cells(position) is Some,
    decreases k,
{
    if k > 0 {
        lemma_joined_keeps_cells(cells, seam, position, (k - 1) as nat);
    }
}

/// The cells of a board once the first `n` of the seams are joined, one
/// after the other.
pub open spec fn folded(
    cells: spec_fn((usize, usize)) -> Option<MapCell>,
    seams: Seq<Seam>,
    n: nat,
) -> spec_fn((usize, usize)) -> Option<MapCell>
    decreases n,
{
    if n == 0 {
        cells
    } else {
        let before = folded(cells, seams, (n - 1) as nat);
        |position: (usize, usize)| joined(before, seams[n - 1], position, EDGE as nat)
    }
}

impl WrapMap {
    /// The cells of the board by position.
    pub open spec fn cells(&self) -> spec_fn((usize, usize)) -> Option<MapCell> {
        |position: (usize, usize)| self.cell(position)
    }

    /// The board has the rows and columns of `other`.
    pub open spec fn same_size(&self, other: &WrapMap) -> bool {
        &&& self.rows@.len() == other.rows@.len()
        &&& forall|y: int|
            0 <= y < self.rows@.len() ==> (#[trigger] self.rows@[y])@.len() == other.rows@[y]@.len()
    }

    /// Puts the cell at the position, where the board has a place for it.
    pub fn put(&mut self, position: &(usize, usize), cell: MapCell)
        requires
            position.1 < old(self).rows@.len(),
            position.0 < old(self).rows@[position.1 as int]@.len(),
        ensures
            final(self).same_size(old(self)),
            forall|other: (usize, usize)|
                #[trigger] final(self).cell(other) == if other == *position {
                    Some(cell)
                } else {
                    old(self).cell(other)
                },
    {
        self.rows[position.1][position.0] = Some(cell);
    }
}

/// Joins the places along one edge to those along another.
pub fn update_line(map: &mut WrapMap, seam: &Seam)
    requires
        seam.fits(),
    ensures
        final(map).same_size(old(map)),
        forall|position: (usize, usize)|
            #[trigger] final(map).cell(position) == joined(
                old(map).cells(),
                *seam,
                position,
                EDGE as nat,
            ),
        old(map).closed() ==> final(map).closed(),
{
    let ghost start = map.cells();
    let mut i: usize = 0;
    while i < EDGE
        invariant
            i <= EDGE,
            seam.fits(),
            map.same_size(old(map)),
            start == old(map).cells(),
            old(map).closed() ==> map.closed(),
            forall|position: (usize, usize)|
                #[trigger] map.cell(position) == joined(start, *seam, position, i as nat),
        decreases EDGE - i,
    {
        let from_coord = (seam.from_xs.value(i), seam.from_ys.value(i));
        let to_coord = (seam.to_xs.value(i), seam.to_ys.value(i));
        let ghost before = *map;
        proof {
            lemma_joined_keeps_cells(start, *seam, to_coord, i as nat);
            assert(map.cell(to_coord) == joined(start, *seam, to_coord, i as nat));
        }
        match map.get(&from_coord) {
            Some(old) => {
                let next = match map.get(&to_coord) {
                    Some(_) => Some((to_coord, seam.rotation)),
                    None => None,
                };
                map.put(&from_coord, old.update_dir(&seam.from_direction, next));
                proof {
                    let made = old.with_dir(seam.from_direction, next);
                    assert(map.cell(from_coord) == Some(made)) by {
                        let got = map.cell(from_coord).unwrap();
                        assert(got.spec_step(Direction::North) == made.spec_step(Direction::North));
                        assert(got.spec_step(Direction::East) == made.spec_step(Direction::East));
                        assert(got.spec_step(Direction::South) == made.spec_step(Direction::South));
                        assert(got.spec_step(Direction::West) == made.spec_step(Direction::West));
                    }
                }
            },
            None => {},
        }
        proof {
            assert forall|position: (usize, usize)| #[trigger]
                map.cell(position) == joined(start, *seam, position, (i + 1) as nat) by {
                assert(before.cell(position) == joined(start, *seam, position, i as nat));
            }
            if before.closed() {
                assert forall|position: (usize, usize), direction: Direction| #[trigger]
                    map.leads_within(position, direction) by {
                    assert(before.leads_within(position, direction));
                    lemma_joined_keeps_cells(start, *seam, position, i as nat);
                    lemma_joined_keeps_cells(start, *seam, position, (i + 1) as nat);
                    match map.cell(position) {
                        Some(cell) => match cell.spec_step(direction) {
                            Some((next, _)) => {
                                lemma_joined_keeps_cells(start, *seam, next, i as nat);
                                lemma_joined_keeps_cells(start, *seam, next, (i + 1) as nat);
                                assert(before.cell(next) == joined(start, *seam, next, i as nat));
                            },
                            None => {},
                        },
                        None => {},
                    }
                }
            }
        }
        i += 1;
    }
}

/// The seam that joins the places at the given runs.
pub open spec fn seam(
    from_xs: Run,
    from_ys: Run,
    to_xs: Run,
    to_ys: Run,
    from_direction: Direction,
    rotation: Rotation,
) -> Seam {
    Seam { from_xs, from_ys, to_xs, to_ys, from_direction, rotation }
}

/// The fourteen seams that fold the board into a cube, the board being
/// laid out as six squares of fifty by fifty: two side by side at the
/// top, one below the left of them, two side by side below that, and one
/// below the left of those.
pub open spec fn cube_seams() -> Seq<Seam> {
    seq![
        seam(Run::Rising(50), Run::Level(0), Run::Level(0), Run::Rising(150), Direction::North, Rotation::Right),
        seam(Run::Level(0), Run::Rising(150), Run::Rising(50), Run::Level(0), Direction::West, Rotation::Left),
        seam(Run::Rising(100), Run::Level(0), Run::Rising(0), Run::Level(199), Direction::North, Rotation::Nothing),
        seam(Run::Rising(0), Run::Level(199), Run::Rising(100), Run::Level(0), Direction::South, Rotation::Nothing),
        seam(Run::Level(149), Run::Rising(0), Run::Level(99), Run::Falling(149), Direction::East, Rotation::Half),
        seam(Run::Level(99), Run::Rising(100), Run::Level(149), Run::Falling(49), Direction::East, Rotation::Half),
        seam(Run::Rising(100), Run::Level(49), Run::Level(99), Run::Rising(50), Direction::South, Rotation::Right),
        seam(Run::Level(99), Run::Rising(50), Run::Rising(100), Run::Level(49), Direction::East, Rotation::Left),
        seam(Run::Rising(50), Run::Level(149), Run::Level(49), Run::Rising(150), Direction::South, Rotation::Right),
        seam(Run::Level(49), Run::Rising(150), Run::Rising(50), Run::Level(149), Direction::East, Rotation::Left),
        seam(Run::Level(0), Run::Rising(100), Run::Level(50), Run::Falling(49), Direction::West, Rotation::Half),
        seam(Run::Level(50), Run::Rising(0), Run::Level(0), Run::Falling(149), Direction::West, Rotation::Half),
        seam(Run::Rising(0), Run::Level(100), Run::Level(50), Run::Rising(50), Direction::North, Rotation::Right),
        seam(Run::Level(50), Run::Rising(50), Run::Rising(0), Run::Level(100), Direction::West, Rotation::Left),
    ]
}

/// The seam that joins the places at the given runs.
pub fn seam_of(
    from_xs: Run,
    from_ys: Run,
    to_xs: Run,
    to_ys: Run,
    from_direction: Direction,
    rotation: Rotation,
) -> (s: Seam)
    ensures
        s == seam(from_xs, from_ys, to_xs, to_ys, from_direction, rotation),
{
    Seam { from_xs, from_ys, to_xs, to_ys, from_direction, rotation }
}

/// Joins seam number `n` of `seams`, the seams before it being joined.
fn fold_next(map: &mut WrapMap, s: &Seam, Ghost(start): Ghost<spec_fn((usize, usize)) -> Option<MapCell>>, Ghost(seams): Ghost<Seq<Seam>>, Ghost(n): Ghost<nat>)
    requires
        s.fits(),
        n < seams.len(),
        seams[n as int] == *s,
        forall|position: (usize, usize)|
            #[trigger] old(map).cell(position) == folded(start, seams, n)(position),
    ensures
        final(map).same_size(old(map)),
        forall|position: (usize, usize)|
            #[trigger] final(map).cell(position) == folded(start, seams, n + 1)(position),
        old(map).closed() ==> final(map).closed(),
{
    let ghost before = map.cells();
    update_line(map, s);
    proof {
        assert forall|position: (usize, usize)| #[trigger]
            map.cell(position) == folded(start, seams, n + 1)(position) by {
            lemma_same_cells(before, folded(start, seams, n), *s, position, EDGE as nat);
        }
    }
}

/// Joining a seam gives the same on boards that hold the same cells.
pub proof fn lemma_same_cells(
    a: spec_fn((usize, usize)) -> Option<MapCell>,
    b: spec_fn((usize, usize)) -> Option<MapCell>,
    seam: Seam,
    position: (usize, usize),
    k: nat,
)
    requires
        forall|p: (usize, usize)| #[trigger] a(p) == b(p),
    ensures
        joined(a, seam, position, k) == joined(b, seam, position, k),
    decreases k,
{
    if k > 0 {
        lemma_same_cells(a, b, seam, position, (k - 1) as nat);
        assert(a(seam.to(k - 1)) == b(seam.to(k - 1)));
    } else {
        assert(a(position) == b(position));
    }
}

/// Folds the board into a cube: joins each edge of its six squares to the
/// edge it meets on the cube.
pub fn convert_to_cube(map: &mut WrapMap)
    ensures
        final(map).same_size(old(map)),
        forall|position: (usize, usize)|
            #[trigger] final(map).cell(position) == folded(old(map).cells(), cube_seams(), 14)(
                position,
            ),
        old(map).closed() ==> final(map).closed(),
{
    let ghost start = map.cells();
    let ghost seams = cube_seams();
    let up = Direction::North;
    let right = Direction::East;
    let down = Direction::South;
    let left = Direction::West;
    fold_next(map, &seam_of(Run::Rising(50), Run::Level(0), Run::Level(0), Run::Rising(150), up, Rotation::Right), Ghost(start), Ghost(seams), Ghost(0));
    fold_next(map, &seam_of(Run::Level(0), Run::Rising(150), Run::Rising(50), Run::Level(0), left, Rotation::Left), Ghost(start), Ghost(seams), Ghost(1));
    fold_next(map, &seam_of(Run::Rising(100), Run::Level(0), Run::Rising(0), Run::Level(199), up, Rotation::Nothing), Ghost(start), Ghost(seams), Ghost(2));
    fold_next(map, &seam_of(Run::Rising(0), Run::Level(199), Run::Rising(100), Run::Level(0), down, Rotation::Nothing), Ghost(start), Ghost(seams), Ghost(3));
    fold_next(map, &seam_of(Run::Level(149), Run::Rising(0), Run::Level(99), Run::Falling(149), right, Rotation::Half), Ghost(start), Ghost(seams), Ghost(4));
    fold_next(map, &seam_of(Run::Level(99), Run::Rising(100), Run::Level(149), Run::Falling(49), right, Rotation::Half), Ghost(start), Ghost(seams), Ghost(5));
    fold_next(map, &seam_of(Run::Rising(100), Run::Level(49), Run::Level(99), Run::Rising(50), down, Rotation::Right), Ghost(start), Ghost(seams), Ghost(6));
    fold_next(map, &seam_of(Run::Level(99), Run::Rising(50), Run::Rising(100), Run::Level(49), right, Rotation::Left), Ghost(start), Ghost(seams), Ghost(7));
    fold_next(map, &seam_of(Run::Rising(50), Run::Level(149), Run::Level(49), Run::Rising(150), down, Rotation::Right), Ghost(start), Ghost(seams), Ghost(8));
    fold_next(map, &seam_of(Run::Level(49), Run::Rising(150), Run::Rising(50), Run::Level(149), right, Rotation::Left), Ghost(start), Ghost(seams), Ghost(9));
    fold_next(map, &seam_of(Run::Level(0), Run::Rising(100), Run::Level(50), Run::Falling(49), left, Rotation::Half), Ghost(start), Ghost(seams), Ghost(10));
    fold_next(map, &seam_of(Run::Level(50), Run::Rising(0), Run::Level(0), Run::Falling(149), left, Rotation::Half), Ghost(start), Ghost(seams), Ghost(11));
    fold_next(map, &seam_of(Run::Rising(0), Run::Level(100), Run::Level(50), Run::Rising(50), up, Rotation::Right), Ghost(start), Ghost(seams), Ghost(12));
    fold_next(map, &seam_of(Run::Level(50), Run::Rising(50), Run::Rising(0), Run::Level(100), left, Rotation::Left), Ghost(start), Ghost(seams), Ghost(13));
}

/// Where an agent that stands and faces as `at` says does so after the
/// instruction.
pub open spec fn carried_out(map: &WrapMap, at: ((usize, usize), Direction), instruction: Instruction) -> (
    (usize, usize),
    Direction,
) {
    match instruction {
        Instruction::Advance(steps) => walk(map, at.0, at.1, steps as nat),
        Instruction::Turn(rotation) => (at.0, at.1.rotated(rotation)),
    }
}

/// Where an agent that stands and faces as `start` says does so after the
/// first `n` of the instructions.
pub open spec fn followed(
    map: &WrapMap,
    start: ((usize, usize), Direction),
    instructions: Seq<Instruction>,
    n: int,
) -> ((usize, usize), Direction)
    decreases n,
{
    if n <= 0 {
        start
    } else {
        carried_out(map, followed(map, start, instructions, n - 1), instructions[n - 1])
    }
}

impl Agent {
    /// Carries out the instructions in their order.
    pub fn follow(&mut self, instructions: &Vec<Instruction>, map: &WrapMap)
        requires
            map.closed(),
            map.cell(old(self).position) is Some,
        ensures
            (final(self).position, final(self).direction) == followed(
                map,
                (old(self).position, old(self).direction),
                instructions@,
                instructions@.len() as int,
            ),
            map.cell(final(self).position) is Some,
    {
        let mut i: usize = 0;
        while i < instructions.len()
            invariant
                i <= instructions@.len(),
                map.closed(),
                map.cell(self.position) is Some,
                (self.position, self.direction) == followed(
                    map,
                    (old(self).position, old(self).direction),
                    instructions@,
                    i as int,
                ),
            decreases instructions@.len() - i,
        {
            match instructions[i] {
                Instruction::Advance(steps) => self.advance(steps, map),
                Instruction::Turn(rotation) => self.turn(&rotation),
            }
            i += 1;
        }
    }
}

} // verus!
