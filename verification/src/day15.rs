//! Sensors that each know the beacon nearest to them, by taxicab distance.

use vstd::prelude::*;
use vstd::pervasive::unreached;
use crate::pattern::{find_texts, found_in, taken, texts_of};
use crate::text::{int_of_text, parse_isize_text};

pub mod border;
pub mod cover;

verus! {

#[derive(Debug, Clone, Copy, PartialEq, Eq, Hash, Structural)]
pub struct Coord {
    pub x: isize,
    pub y: isize,
}

/// The distance between two numbers.
pub open spec fn gap(a: int, b: int) -> int {
    if a <= b {
        b - a
    } else {
        a - b
    }
}

/// The taxicab distance between two points.
pub open spec fn taxicab(a: Coord, b: Coord) -> int {
    gap(a.x as int, b.x as int) + gap(a.y as int, b.y as int)
}

/// The distance between two numbers.
pub fn gap_between(a: isize, b: isize) -> (d: usize)
    ensures
        d == gap(a as int, b as int),
{
    if a <= b {
        (b as i128 - a as i128) as usize
    } else {
        (a as i128 - b as i128) as usize
    }
}

impl Coord {
    /// The point whose coordinates the two texts stand for.
    pub fn parse(x: &str, y: &str) -> (coord: Coord)
        requires
            int_of_text(x@) is Some,
            int_of_text(y@) is Some,
        ensures
            int_of_text(x@) == Some(coord.x),
            int_of_text(y@) == Some(coord.y),
    {
        let x = match parse_isize_text(x) {
            Some(v) => v,
            None => unreached(),
        };
        let y = match parse_isize_text(y) {
            Some(v) => v,
            None => unreached(),
        };
        Coord::new(x, y)
    }

    pub fn new(x: isize, y: isize) -> (coord: Coord)
        ensures
            coord == (Coord { x, y }),
    {
        Coord { x, y }
    }

    /// The taxicab distance to the other point.
    pub fn dist_to(&self, other: &Coord) -> (d: usize)
        requires
            taxicab(*self, *other) <= usize::MAX,
        ensures
            d == taxicab(*self, *other),
    {
        gap_between(self.x, other.x) + gap_between(self.y, other.y)
    }
}

#[derive(Debug, Clone, Copy, PartialEq, Eq)]
pub struct Sensor {
    pub coord: Coord,
    pub nearest_beacon: Coord,
    pub dist: usize,
}

/// The sensor that the four coordinates stand for: its own and those of
/// the beacon nearest to it.
pub open spec fn sensor_at(sx: isize, sy: isize, bx: isize, by: isize) -> Sensor {
    Sensor {
        coord: Coord { x: sx, y: sy },
        nearest_beacon: Coord { x: bx, y: by },
        dist: taxicab(Coord { x: sx, y: sy }, Coord { x: bx, y: by }) as usize,
    }
}

/// The sensor that the groups of a line stand for: four numerals, for a
/// sensor whose beacon is not too far off for the machine's integers.
pub open spec fn sensor_of_groups(groups: Option<Seq<Seq<char>>>) -> Option<Sensor> {
    match groups {
        Some(g) => if g.len() == 4 {
            match (int_of_text(g[0]), int_of_text(g[1]), int_of_text(g[2]), int_of_text(g[3])) {
                (Some(sx), Some(sy), Some(bx), Some(by)) => if taxicab(
                    Coord { x: sx, y: sy },
                    Coord { x: bx, y: by },
                ) <= usize::MAX {
                    Some(sensor_at(sx, sy, bx, by))
                } else {
                    None
                },
                _ => None,
            }
        } else {
            None
        },
        None => None,
    }
}

/// The sensor that the groups of a line stand for.
pub fn sensor_from_groups(groups: &Vec<String>) -> (sensor: Option<Sensor>)
    ensures
        sensor == sensor_of_groups(Some(texts_of(groups@))),
{
    if groups.len() != 4 {
        return None;
    }
    let sx = parse_isize_text(groups[0].as_str());
    let sy = parse_isize_text(groups[1].as_str());
    let bx = parse_isize_text(groups[2].as_str());
    let by = parse_isize_text(groups[3].as_str());
    match (sx, sy, bx, by) {
        (Some(sx), Some(sy), Some(bx), Some(by)) => {
            let across = gap_between(sx, bx);
            let along = gap_between(sy, by);
            if across > usize::MAX - along {
                None
            } else {
                Some(
                    Sensor {
                        coord: Coord { x: sx, y: sy },
                        nearest_beacon: Coord { x: bx, y: by },
                        dist: across + along,
                    },
                )
            }
        },
        _ => None,
    }
}

/// The form of a line that tells of a sensor and its beacon.
pub const SENSOR_PATTERN: &'static str =
    "Sensor at x=(-?\\d+), y=(-?\\d+): closest beacon is at x=(-?\\d+), y=(-?\\d+)";

/// The sensor that a line tells of, if the line has the form of
/// `SENSOR_PATTERN`.
pub fn parse_sensor_line(line: &str) -> (sensor: Option<Sensor>)
    ensures
        sensor == sensor_of_groups(taken(found_in(SENSOR_PATTERN@, line@))),
{
    match find_texts(SENSOR_PATTERN, line) {
        Some(groups) => sensor_from_groups(&groups),
        None => None,
    }
}

impl Sensor {
    /// The sensor whose coordinates, and those of its nearest beacon, the
    /// four texts stand for.
    pub fn parse(sx: &str, sy: &str, bx: &str, by: &str) -> (sensor: Sensor)
        requires
            sensor_of_groups(Some(seq![sx@, sy@, bx@, by@])) is Some,
        ensures
            Some(sensor) == sensor_of_groups(Some(seq![sx@, sy@, bx@, by@])),
    {
        let coord = Coord::parse(sx, sy);
        let nearest_beacon = Coord::parse(bx, by);
        let dist = coord.dist_to(&nearest_beacon);
        Sensor { coord, nearest_beacon, dist }
    }

    /// The sensor that stands at `coord` and sees its nearest beacon at
    /// `nearest_beacon`.
    pub fn new(coord: Coord, nearest_beacon: Coord) -> (sensor: Sensor)
        requires
            taxicab(coord, nearest_beacon) <= usize::MAX,
        ensures
            sensor.coord == coord,
            sensor.nearest_beacon == nearest_beacon,
            sensor.dist == taxicab(coord, nearest_beacon),
    {
        let dist = coord.dist_to(&nearest_beacon);
        Sensor { coord, nearest_beacon, dist }
    }

    /// Whether the point is no farther from the sensor than its beacon.
    pub open spec fn covers(&self, point: Coord) -> bool {
        taxicab(self.coord, point) <= self.dist
    }

    /// Whether the point at `x`, `y` is no farther from the sensor than
    /// its beacon.
    pub open spec fn covers_at(&self, x: int, y: int) -> bool {
        gap(self.coord.x as int, x) + gap(self.coord.y as int, y) <= self.dist
    }

    /// The sensor's reach along a row stays within the machine's integers.
    pub open spec fn in_range(&self) -> bool {
        &&& self.dist <= isize::MAX
        &&& isize::MIN <= self.coord.x - self.dist
        &&& self.coord.x + self.dist <= isize::MAX
    }

    /// The sensor's reach along a row stays within the middle half of the
    /// machine's integers.
    pub open spec fn in_window(&self) -> bool {
        &&& self.dist <= isize::MAX
        &&& isize::MIN / 2 < self.coord.x - self.dist
        &&& self.coord.x + self.dist < isize::MAX / 2
    }

    /// The least and the greatest `x` of the points in row `y` that the
    /// sensor covers; `None` if it covers none.
    pub fn covered_range_at(&self, y: isize) -> (range: Option<(isize, isize)>)
        requires
            self.in_range(),
        ensures
            match range {
                Some((lo, hi)) => lo <= hi && forall|x: int|
                    lo <= x <= hi <==> self.covers_at(x, y as int),
                None => forall|x: int| !self.covers_at(x, y as int),
            },
    {
        let dy = gap_between(self.coord.y, y);
        if dy <= self.dist {
            let dx = (self.dist - dy) as isize;
            Some((self.coord.x - dx, self.coord.x + dx))
        } else {
            None
        }
    }

    pub fn contains(&self, point: &Coord) -> (yes: bool)
        requires
            taxicab(self.coord, *point) <= usize::MAX,
        ensures
            yes == self.covers(*point),
    {
        self.coord.dist_to(point) <= self.dist
    }
}

} // verus!
