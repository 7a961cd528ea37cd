//! The ring of places just out of a sensor's reach, and the search along
//! such rings for a place that no sensor covers.

use vstd::prelude::*;
use crate::day15::{Coord, Sensor, gap_between, taxicab};

verus! {

/// The place `i` steps of `dx`, `dy` from `start`.
pub open spec fn stepped(start: Coord, dx: int, dy: int, i: int) -> (int, int) {
    (start.x + i * dx, start.y + i * dy)
}

/// The place as a pair of numbers.
pub open spec fn place(c: Coord) -> (int, int) {
    (c.x as int, c.y as int)
}

/// The places from `start`, each a step of `dx`, `dy` on from the one
/// before, up to but not including `end`, which the steps come to.
pub fn coord_iterator(start: Coord, end: Coord, dx: isize, dy: isize) -> (walk: Vec<Coord>)
    requires
        exists|n: nat| stepped(start, dx as int, dy as int, n as int) == place(end),
    ensures
        forall|i: int|
            0 <= i < walk@.len() ==> place(#[trigger] walk@[i]) == stepped(
                start,
                dx as int,
                dy as int,
                i,
            ) && walk@[i] != end,
        stepped(start, dx as int, dy as int, walk@.len() as int) == place(end),
{
    let ghost n = choose|n: nat| stepped(start, dx as int, dy as int, n as int) == place(end);
    let mut walk: Vec<Coord> = Vec::new();
    let mut next = start;
    assert(0 * (dx as int) == 0 && 0 * (dy as int) == 0);
    while next.x != end.x || next.y != end.y
        invariant
            walk@.len() <= n,
            stepped(start, dx as int, dy as int, n as int) == place(end),
            place(next) == stepped(start, dx as int, dy as int, walk@.len() as int),
            forall|i: int|
                0 <= i < walk@.len() ==> place(#[trigger] walk@[i]) == stepped(
                    start,
                    dx as int,
                    dy as int,
                    i,
                ) && walk@[i] != end,
        decreases n - walk@.len(),
    {
        let ghost i = walk@.len() as int;
        proof {
            lemma_between(start.x as int, dx as int, i + 1, n as int);
            lemma_between(start.y as int, dy as int, i + 1, n as int);
            assert((i + 1) * (dx as int) == i * (dx as int) + dx) by (nonlinear_arith);
            assert((i + 1) * (dy as int) == i * (dy as int) + dy) by (nonlinear_arith);
        }
        walk.push(next);
        next = Coord::new(next.x + dx, next.y + dy);
    }
    walk
}

/// A walk in equal steps stays between its start and its end.
pub proof fn lemma_between(start: int, step: int, i: int, n: int)
    requires
        0 <= i <= n,
    ensures
        start <= start + i * step <= start + n * step || start + n * step <= start + i * step
            <= start,
{
    assert((0 <= i * step <= n * step) || (n * step <= i * step <= 0)) by (nonlinear_arith)
        requires
            0 <= i <= n,
    ;
}

impl Sensor {
    /// The ring just out of reach lies within the machine's integers.
    pub open spec fn ring_in_range(&self) -> bool {
        &&& self.dist < isize::MAX
        &&& isize::MIN <= self.coord.x - self.dist - 1
        &&& self.coord.x + self.dist + 1 <= isize::MAX
        &&& isize::MIN <= self.coord.y - self.dist - 1
        &&& self.coord.y + self.dist + 1 <= isize::MAX
    }

    /// The place number `k` of the ring just out of reach: from the left
    /// corner up to the top, on to the right, down to the bottom and back.
    pub open spec fn ring_place(&self, k: int) -> (int, int) {
        let r = self.dist + 1;
        let q = k / r;
        let i = k % r;
        if q == 0 {
            (self.coord.x - r + i, self.coord.y - i)
        } else if q == 1 {
            (self.coord.x + i, self.coord.y - r + i)
        } else if q == 2 {
            (self.coord.x + r - i, self.coord.y + i)
        } else {
            (self.coord.x - i, self.coord.y + r - i)
        }
    }

    /// The places just out of the sensor's reach, once round.
    pub fn border_iter(&self) -> (ring: Vec<Coord>)
        requires
            self.ring_in_range(),
        ensures
            ring@.len() == 4 * (self.dist + 1),
            forall|k: int| 0 <= k < ring@.len() ==> place(#[trigger] ring@[k]) == self.ring_place(k),
            forall|k: int|
                0 <= k < ring@.len() ==> taxicab(self.coord, #[trigger] ring@[k]) == self.dist + 1,
    {
        let border_dist = (self.dist + 1) as isize;
        let left = Coord::new(self.coord.x - border_dist, self.coord.y);
        let right = Coord::new(self.coord.x + border_dist, self.coord.y);
        let top = Coord::new(self.coord.x, self.coord.y - border_dist);
        let bottom = Coord::new(self.coord.x, self.coord.y + border_dist);
        let ghost r = border_dist as int;
        proof {
            assert(r * 1 == r && r * -1 == -r) by (nonlinear_arith);
            assert(stepped(left, 1, -1, r) == place(top));
            assert(stepped(top, 1, 1, r) == place(right));
            assert(stepped(right, -1, 1, r) == place(bottom));
            assert(stepped(bottom, -1, -1, r) == place(left));
        }
        let mut ring = coord_iterator(left, top, 1, -1);
        let mut top_to_right = coord_iterator(top, right, 1, 1);
        let mut right_to_bottom = coord_iterator(right, bottom, -1, 1);
        let mut bottom_to_left = coord_iterator(bottom, left, -1, -1);
        proof {
            lemma_walk_len(left, top, 1, -1, ring@.len() as int, r);
            lemma_walk_len(top, right, 1, 1, top_to_right@.len() as int, r);
            lemma_walk_len(right, bottom, -1, 1, right_to_bottom@.len() as int, r);
            lemma_walk_len(bottom, left, -1, -1, bottom_to_left@.len() as int, r);
        }
        let ghost first = ring@;
        let ghost second = top_to_right@;
        let ghost third = right_to_bottom@;
        let ghost fourth = bottom_to_left@;
        ring.append(&mut top_to_right);
        ring.append(&mut right_to_bottom);
        ring.append(&mut bottom_to_left);
        proof {
            assert(ring@ =~= first + second + third + fourth);
            assert forall|k: int| 0 <= k < ring@.len() implies place(#[trigger] ring@[k])
                == self.ring_place(k) && taxicab(self.coord, ring@[k]) == self.dist + 1 by {
                lemma_ring_index(k, r);
                let q = k / r;
                let i = k % r;
                assert(i * 1 == i && i * -1 == -i) by (nonlinear_arith);
                assert(q * r == if q == 0 {
                    0
                } else if q == 1 {
                    r
                } else if q == 2 {
                    2 * r
                } else {
                    3 * r
                }) by (nonlinear_arith)
                    requires
                        0 <= q < 4,
                ;
                assert(first.len() == r && second.len() == r && third.len() == r && fourth.len()
                    == r);
                if q == 0 {
                    assert(k == i);
                    assert(ring@[k] == first[i]);
                } else if q == 1 {
                    assert(k == r + i);
                    assert(ring@[k] == second[i]);
                } else if q == 2 {
                    assert(k == 2 * r + i);
                    assert(ring@[k] == third[i]);
                } else {
                    assert(k == 3 * r + i);
                    assert(ring@[k] == fourth[i]);
                }
            }
        }
        ring
    }
}

/// A walk in steps of one that comes to its end after `r` steps and not
/// before is `r` steps long.
pub proof fn lemma_walk_len(start: Coord, end: Coord, dx: int, dy: int, len: int, r: int)
    requires
        dx == 1 || dx == -1,
        0 <= len,
        0 <= r,
        stepped(start, dx, dy, len) == place(end),
        stepped(start, dx, dy, r) == place(end),
    ensures
        len == r,
{
    assert(len * dx == r * dx ==> len == r) by (nonlinear_arith)
        requires
            dx == 1 || dx == -1,
    ;
}

/// The place number `k` of a ring of four sides of `r` places is place
/// number `k % r` of side number `k / r`.
pub proof fn lemma_ring_index(k: int, r: int)
    requires
        0 < r,
        0 <= k < 4 * r,
    ensures
        0 <= k / r < 4,
        0 <= k % r < r,
        k == (k / r) * r + k % r,
{
    vstd::arithmetic::div_mod::lemma_fundamental_div_mod(k, r);
    vstd::arithmetic::div_mod::lemma_mod_bound(k, r);
    let q = k / r;
    assert(0 <= q < 4) by (nonlinear_arith)
        requires
            k == r * q + k % r,
            0 <= k % r < r,
            0 <= k < 4 * r,
            0 < r,
    ;
    assert(r * q == q * r) by (nonlinear_arith);
}

/// Whether one of the sensors covers the place.
pub open spec fn covered_by_any(sensors: Seq<Sensor>, at: (int, int)) -> bool {
    exists|i: int| 0 <= i < sensors.len() && (#[trigger] sensors[i]).covers_at(at.0, at.1)
}

/// Whether place number `k` of the ring of sensor number `s` lies in the
/// square from 0 to `search_max` and no sensor covers it.
pub open spec fn is_gap(sensors: Seq<Sensor>, search_max: int, s: int, k: int) -> bool {
    let at = sensors[s].ring_place(k);
    &&& 0 <= s < sensors.len()
    &&& 0 <= k < 4 * (sensors[s].dist + 1)
    &&& 0 <= at.0 <= search_max
    &&& 0 <= at.1 <= search_max
    &&& !covered_by_any(sensors, at)
}

/// Whether one of the sensors covers the place.
pub fn is_covered(sensors: &Vec<Sensor>, point: &Coord) -> (covered: bool)
    ensures
        covered == covered_by_any(sensors@, place(*point)),
{
    let mut i: usize = 0;
    while i < sensors.len()
        invariant
            i <= sensors@.len(),
            forall|k: int| 0 <= k < i ==> !(#[trigger] sensors@[k]).covers_at(
                point.x as int,
                point.y as int,
            ),
        decreases sensors@.len() - i,
    {
        let across = gap_between(sensors[i].coord.x, point.x);
        let along = gap_between(sensors[i].coord.y, point.y);
        if across as u128 + along as u128 <= sensors[i].dist as u128 {
            return true;
        }
        i += 1;
    }
    false
}

/// The first place in the square from 0 to `search_max` that lies just out
/// of reach of one of the sensors and within reach of none, going through
/// the sensors in turn and round the ring of each.
pub fn find_gap(sensors: &Vec<Sensor>, search_max: isize) -> (found: Option<Coord>)
    requires
        forall|i: int| 0 <= i < sensors@.len() ==> (#[trigger] sensors@[i]).ring_in_range(),
    ensures
        match found {
            Some(c) => exists|s: int, k: int|
                {
                    &&& #[trigger] is_gap(sensors@, search_max as int, s, k)
                    &&& place(c) == sensors@[s].ring_place(k)
                    &&& forall|t: int, m: int|
                        t < s || (t == s && m < k) ==> !#[trigger] is_gap(
                            sensors@,
                            search_max as int,
                            t,
                            m,
                        )
                },
            None => forall|s: int, k: int| !#[trigger] is_gap(sensors@, search_max as int, s, k),
        },
{
    let mut s: usize = 0;
    while s < sensors.len()
        invariant
            s <= sensors@.len(),
            forall|i: int| 0 <= i < sensors@.len() ==> (#[trigger] sensors@[i]).ring_in_range(),
            forall|t: int, m: int| t < s ==> !#[trigger] is_gap(sensors@, search_max as int, t, m),
        decreases sensors@.len() - s,
    {
        let ring = sensors[s].border_iter();
        let mut k: usize = 0;
        while k < ring.len()
            invariant
                s < sensors@.len(),
                k <= ring@.len(),
                ring@.len() == 4 * (sensors@[s as int].dist + 1),
                forall|m: int|
                    0 <= m < ring@.len() ==> place(#[trigger] ring@[m]) == sensors@[s as int].ring_place(
                        m,
                    ),
                forall|t: int, m: int|
                    t < s || (t == s && m < k) ==> !#[trigger] is_gap(
                        sensors@,
                        search_max as int,
                        t,
                        m,
                    ),
            decreases ring@.len() - k,
        {
            let border_coord = ring[k];
            let in_search_bounds = border_coord.x >= 0 && border_coord.x <= search_max
                && border_coord.y >= 0 && border_coord.y <= search_max;
            if in_search_bounds && !is_covered(sensors, &border_coord) {
                assert(is_gap(sensors@, search_max as int, s as int, k as int));
                return Some(border_coord);
            }
            k += 1;
        }
        s += 1;
    }
    None
}

} // verus!
