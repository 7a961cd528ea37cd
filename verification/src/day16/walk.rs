//! The most pressure released by one who walks from valve to valve, or by
//! two who walk at the same time, found by trying every way.

use std::collections::HashMap;
use vstd::prelude::*;
use crate::day16::{bit_is_set, is_open, Valve};
use crate::day16::search::{headroom, larger, lemma_headroom, lemma_top_rate, open_bit, top_rate};

verus! {

broadcast use vstd::std_specs::hash::group_hash_axioms;

/// Where two who walk stand: each at a valve with minutes left, the valves
/// open, and the pressure that will have been released when time is up.
#[derive(Debug, Clone, Copy, PartialEq, Eq)]
pub struct Duo {
    pub my_valve: usize,
    pub el_valve: usize,
    pub my_mins: u16,
    pub el_mins: u16,
    pub pressure: usize,
    pub open: u64,
}

/// The cave is one that a walk can be searched in: the number of a valve
/// fits the sixteen bits that the key of a state has for it, the distances
/// are those between its valves, with room to add the minute of opening
/// and one to spare, and every valve worth opening has one of the first 64
/// numbers.
pub open spec fn walkable(valves: Seq<Valve>, usable: Seq<usize>, dists: Seq<Vec<usize>>) -> bool {
    &&& valves.len() <= 65535
    &&& dists.len() == valves.len()
    &&& forall|i: int| 0 <= i < dists.len() ==> (#[trigger] dists[i])@.len() == valves.len()
    &&& forall|i: int, j: int|
        0 <= i < dists.len() && 0 <= j < dists.len() ==> #[trigger] dists[i]@[j] <= usize::MAX
            - 2
    &&& forall|i: int|
        0 <= i < usable.len() ==> (#[trigger] usable[i]) < valves.len() && usable[i] < 64
}

/// The state is one that a search can go on from: the most pressure that
/// it can come to, by what the two can yet add, fits the machine's
/// integers.
pub open spec fn in_bounds(valves: Seq<Valve>, s: Duo) -> bool {
    &&& s.my_valve < valves.len()
    &&& s.el_valve < valves.len()
    &&& s.pressure + headroom(top_rate(valves), s.my_mins as nat) + headroom(
        top_rate(valves),
        s.el_mins as nat,
    ) <= usize::MAX
}

/// Whether the one at `at` with `mins` minutes left can go on to valve
/// number `idx` of those worth opening: it is another valve, it is shut,
/// and with `spare` minutes to spare there is time to walk to it and open
/// it.
pub open spec fn can_move(
    usable: Seq<usize>,
    dists: Seq<Vec<usize>>,
    open: u64,
    at: usize,
    mins: u16,
    idx: int,
    spare: int,
) -> bool {
    &&& usable[idx] != at
    &&& dists[at as int]@[usable[idx] as int] + 1 + spare <= mins
    &&& !bit_is_set(open, usable[idx] as int)
}

/// The minutes left after walking from `at` to valve number `idx` and
/// opening it.
pub open spec fn mins_after(usable: Seq<usize>, dists: Seq<Vec<usize>>, at: usize, mins: u16, idx: int) -> u16 {
    (mins - (dists[at as int]@[usable[idx] as int] + 1)) as u16
}

/// The state after I alone have moved to valve number `idx`.
pub open spec fn after_mine(valves: Seq<Valve>, usable: Seq<usize>, dists: Seq<Vec<usize>>, s: Duo, idx: int) -> Duo {
    let mins = mins_after(usable, dists, s.my_valve, s.my_mins, idx);
    Duo {
        my_valve: usable[idx],
        my_mins: mins,
        pressure: (s.pressure + valves[usable[idx] as int].rate * mins) as usize,
        open: s.open | (1u64 << (usable[idx] as u64)),
        ..s
    }
}

/// The state after the other alone has moved to valve number `idx`.
pub open spec fn after_other(valves: Seq<Valve>, usable: Seq<usize>, dists: Seq<Vec<usize>>, s: Duo, idx: int) -> Duo {
    let mins = mins_after(usable, dists, s.el_valve, s.el_mins, idx);
    Duo {
        el_valve: usable[idx],
        el_mins: mins,
        pressure: (s.pressure + valves[usable[idx] as int].rate * mins) as usize,
        open: s.open | (1u64 << (usable[idx] as u64)),
        ..s
    }
}

/// The state after I have moved to valve number `mine` and the other to
/// valve number `theirs`.
pub open spec fn after_both(
    valves: Seq<Valve>,
    usable: Seq<usize>,
    dists: Seq<Vec<usize>>,
    s: Duo,
    mine: int,
    theirs: int,
) -> Duo {
    let my_mins = mins_after(usable, dists, s.my_valve, s.my_mins, mine);
    let el_mins = mins_after(usable, dists, s.el_valve, s.el_mins, theirs);
    Duo {
        my_valve: usable[mine],
        el_valve: usable[theirs],
        my_mins,
        el_mins,
        pressure: (s.pressure + valves[usable[mine] as int].rate * my_mins
            + valves[usable[theirs] as int].rate * el_mins) as usize,
        open: (s.open | (1u64 << (usable[mine] as u64))) | (1u64 << (usable[theirs] as u64)),
    }
}

/// The key under which a state is remembered.
pub open spec fn duo_key(s: Duo) -> u128 {
    ((((s.open as int * 65536 + s.el_mins) * 65536 + s.my_mins) * 65536 + s.el_valve) * 65536
        + s.my_valve) as u128
}

/// The minutes that the two have left together.
pub open spec fn time_left(s: Duo) -> int {
    s.my_mins + s.el_mins
}

/// What a search from the state gives, and what is remembered after it:
/// the pressure of the state if time is up or all valves are open; 0 if
/// the state was come to before with no less pressure; and else the most
/// that is found when I move, when the other moves, or when both move, or
/// the pressure of the state itself.
pub open spec fn duo(
    valves: Seq<Valve>,
    usable: Seq<usize>,
    dists: Seq<Vec<usize>>,
    all_open: u64,
    s: Duo,
    cache: Map<u128, usize>,
) -> (int, Map<u128, usize>)
    decreases time_left(s), 3int, 0int,
{
    if s.my_mins == 0 && s.el_mins == 0 {
        (s.pressure as int, cache)
    } else if s.open == all_open {
        (s.pressure as int, cache)
    } else if cache.contains_key(duo_key(s)) && cache[duo_key(s)] >= s.pressure {
        (0, cache)
    } else {
        let c0 = cache.insert(duo_key(s), s.pressure);
        let (m1, c1) = mine_to(valves, usable, dists, all_open, s, c0, usable.len());
        let (m2, c2) = other_to(valves, usable, dists, all_open, s, c1, usable.len());
        let (m3, c3) = both_to(valves, usable, dists, all_open, s, c2, usable.len());
        (larger(larger(larger(s.pressure as int, m1), m2), m3), c3)
    }
}

/// The most found when I alone move to one of the first `k` valves worth
/// opening; -1 if I can move to none.
pub open spec fn mine_to(
    valves: Seq<Valve>,
    usable: Seq<usize>,
    dists: Seq<Vec<usize>>,
    all_open: u64,
    s: Duo,
    cache: Map<u128, usize>,
    k: nat,
) -> (int, Map<u128, usize>)
    decreases time_left(s), 2int, k,
{
    if k == 0 {
        (-1, cache)
    } else {
        let (m, c) = mine_to(valves, usable, dists, all_open, s, cache, (k - 1) as nat);
        let next = after_mine(valves, usable, dists, s, k - 1);
        if can_move(usable, dists, s.open, s.my_valve, s.my_mins, k - 1, 0) && time_left(next)
            < time_left(s) {
            let (v, c2) = duo(valves, usable, dists, all_open, next, c);
            (larger(m, v), c2)
        } else {
            (m, c)
        }
    }
}

/// The most found when the other alone moves to one of the first `k`
/// valves worth opening; -1 if the other can move to none.
pub open spec fn other_to(
    valves: Seq<Valve>,
    usable: Seq<usize>,
    dists: Seq<Vec<usize>>,
    all_open: u64,
    s: Duo,
    cache: Map<u128, usize>,
    k: nat,
) -> (int, Map<u128, usize>)
    decreases time_left(s), 2int, k,
{
    if k == 0 {
        (-1, cache)
    } else {
        let (m, c) = other_to(valves, usable, dists, all_open, s, cache, (k - 1) as nat);
        let next = after_other(valves, usable, dists, s, k - 1);
        if can_move(usable, dists, s.open, s.el_valve, s.el_mins, k - 1, 0) && time_left(next)
            < time_left(s) {
            let (v, c2) = duo(valves, usable, dists, all_open, next, c);
            (larger(m, v), c2)
        } else {
            (m, c)
        }
    }
}

/// The most found when I move to one of the first `k` valves worth
/// opening and the other moves as well; -1 if we cannot.
pub open spec fn both_to(
    valves: Seq<Valve>,
    usable: Seq<usize>,
    dists: Seq<Vec<usize>>,
    all_open: u64,
    s: Duo,
    cache: Map<u128, usize>,
    k: nat,
) -> (int, Map<u128, usize>)
    decreases time_left(s), 2int, k,
{
    if k == 0 {
        (-1, cache)
    } else {
        let (m, c) = both_to(valves, usable, dists, all_open, s, cache, (k - 1) as nat);
        if can_move(usable, dists, s.open, s.my_valve, s.my_mins, k - 1, 0) {
            let (v, c2) = with_me_at(valves, usable, dists, all_open, s, c, k - 1, usable.len());
            (larger(m, v), c2)
        } else {
            (m, c)
        }
    }
}

/// The most found when I move to valve number `mine` and the other to one
/// of the first `k` valves worth opening, which must be another valve
/// and leave the other a minute to spare; -1 if the other can move to
/// none.
pub open spec fn with_me_at(
    valves: Seq<Valve>,
    usable: Seq<usize>,
    dists: Seq<Vec<usize>>,
    all_open: u64,
    s: Duo,
    cache: Map<u128, usize>,
    mine: int,
    k: nat,
) -> (int, Map<u128, usize>)
    decreases time_left(s), 1int, k,
{
    if k == 0 {
        (-1, cache)
    } else {
        let (m, c) = with_me_at(valves, usable, dists, all_open, s, cache, mine, (k - 1) as nat);
        let next = after_both(valves, usable, dists, s, mine, k - 1);
        if usable[k - 1] != usable[mine] && can_move(
            usable,
            dists,
            s.open,
            s.el_valve,
            s.el_mins,
            k - 1,
            1,
        ) && time_left(next) < time_left(s) {
            let (v, c2) = duo(valves, usable, dists, all_open, next, c);
            (larger(m, v), c2)
        } else {
            (m, c)
        }
    }
}

/// The number that stands for what a search of moves has found: the most
/// found, or -1 where there was no move.
pub open spec fn value_of(found: Option<usize>) -> int {
    match found {
        Some(v) => v as int,
        None => -1,
    }
}

/// The key under which a state is remembered.
pub fn key_of(s: &Duo) -> (key: u128)
    requires
        s.my_valve <= 65535,
        s.el_valve <= 65535,
    ensures
        key == duo_key(*s),
{
    ((((s.open as u128) * 65536 + s.el_mins as u128) * 65536 + s.my_mins as u128) * 65536
        + s.el_valve as u128) * 65536 + s.my_valve as u128
}

/// A move takes time, and the valve it opens adds no more than the
/// headroom falls by.
pub proof fn lemma_move(
    valves: Seq<Valve>,
    usable: Seq<usize>,
    dists: Seq<Vec<usize>>,
    open: u64,
    at: usize,
    mins: u16,
    idx: int,
    spare: int,
)
    requires
        walkable(valves, usable, dists),
        0 <= idx < usable.len(),
        at < valves.len(),
        0 <= spare,
        can_move(usable, dists, open, at, mins, idx, spare),
    ensures
        mins_after(usable, dists, at, mins, idx) == mins - (dists[at as int]@[usable[idx] as int]
            + 1),
        spare <= mins_after(usable, dists, at, mins, idx) < mins,
        0 <= valves[usable[idx] as int].rate * mins_after(usable, dists, at, mins, idx),
        valves[usable[idx] as int].rate * mins_after(usable, dists, at, mins, idx) + headroom(
            top_rate(valves),
            mins_after(usable, dists, at, mins, idx) as nat,
        ) <= headroom(top_rate(valves), mins as nat),
{
    let rate = valves[usable[idx] as int].rate;
    let left = mins_after(usable, dists, at, mins, idx);
    lemma_top_rate(valves, usable[idx] as int);
    lemma_headroom(top_rate(valves), rate as nat, mins as nat, left as nat);
}

/// Whether the one at `at` with `mins` minutes left can go on to the
/// valve `to`.
fn may_move(
    dists: &Vec<Vec<usize>>,
    open_valves: u64,
    at: usize,
    mins: u16,
    to: usize,
    spare: usize,
    Ghost(usable): Ghost<Seq<usize>>,
    Ghost(idx): Ghost<int>,
) -> (yes: bool)
    requires
        at < dists@.len(),
        to < dists@[at as int]@.len(),
        dists@[at as int]@[to as int] <= usize::MAX - 2,
        to < 64,
        spare <= 1,
        0 <= idx < usable.len(),
        usable[idx] == to,
    ensures
        yes == can_move(usable, dists@, open_valves, at, mins, idx, spare as int),
{
    to != at && dists[at][to] + 1 + spare <= mins as usize && !is_open(open_valves, to)
}

/// The greater of what was found before and what is found now.
pub fn keep_most(best: Option<usize>, found: usize) -> (most: Option<usize>)
    ensures
        value_of(most) == larger(value_of(best), found as int),
{
    match best {
        Some(b) => if b >= found {
            Some(b)
        } else {
            Some(found)
        },
        None => Some(found),
    }
}

/// The most found when I alone move.
pub fn moves_of_mine(
    s: Duo,
    all_open: u64,
    valves: &Vec<Valve>,
    usable_valve_indexes: &Vec<usize>,
    dists: &Vec<Vec<usize>>,
    cache: &mut HashMap<u128, usize>,
) -> (found: Option<usize>)
    requires
        walkable(valves@, usable_valve_indexes@, dists@),
        in_bounds(valves@, s),
    ensures
        (value_of(found), final(cache)@) == mine_to(
            valves@,
            usable_valve_indexes@,
            dists@,
            all_open,
            s,
            old(cache)@,
            usable_valve_indexes@.len(),
        ),
    decreases time_left(s), 2int,
{
    let mut best: Option<usize> = None;
    let mut k: usize = 0;
    while k < usable_valve_indexes.len()
        invariant
            k <= usable_valve_indexes@.len(),
            walkable(valves@, usable_valve_indexes@, dists@),
            in_bounds(valves@, s),
            (value_of(best), cache@) == mine_to(
                valves@,
                usable_valve_indexes@,
                dists@,
                all_open,
                s,
                old(cache)@,
                k as nat,
            ),
        decreases usable_valve_indexes@.len() - k,
    {
        let to = usable_valve_indexes[k];
        if may_move(
            dists,
            s.open,
            s.my_valve,
            s.my_mins,
            to,
            0,
            Ghost(usable_valve_indexes@),
            Ghost(k as int),
        ) {
            proof {
                lemma_move(
                    valves@,
                    usable_valve_indexes@,
                    dists@,
                    s.open,
                    s.my_valve,
                    s.my_mins,
                    k as int,
                    0,
                );
            }
            let mins = s.my_mins - (dists[s.my_valve][to] + 1) as u16;
            let next = Duo {
                my_valve: to,
                el_valve: s.el_valve,
                my_mins: mins,
                el_mins: s.el_mins,
                pressure: s.pressure + valves[to].rate * mins as usize,
                open: open_bit(s.open, to),
            };
            assert(next == after_mine(valves@, usable_valve_indexes@, dists@, s, k as int));
            let found = max_released_pressure_duo(
                next.my_valve,
                next.el_valve,
                next.my_mins,
                next.el_mins,
                next.pressure,
                next.open,
                all_open,
                valves,
                usable_valve_indexes,
                dists,
                cache,
            );
            best = keep_most(best, found);
        }
        k += 1;
    }
    best
}

/// The most found when the other alone moves.
pub fn moves_of_other(
    s: Duo,
    all_open: u64,
    valves: &Vec<Valve>,
    usable_valve_indexes: &Vec<usize>,
    dists: &Vec<Vec<usize>>,
    cache: &mut HashMap<u128, usize>,
) -> (found: Option<usize>)
    requires
        walkable(valves@, usable_valve_indexes@, dists@),
        in_bounds(valves@, s),
    ensures
        (value_of(found), final(cache)@) == other_to(
            valves@,
            usable_valve_indexes@,
            dists@,
            all_open,
            s,
            old(cache)@,
            usable_valve_indexes@.len(),
        ),
    decreases time_left(s), 2int,
{
    let mut best: Option<usize> = None;
    let mut k: usize = 0;
    while k < usable_valve_indexes.len()
        invariant
            k <= usable_valve_indexes@.len(),
            walkable(valves@, usable_valve_indexes@, dists@),
            in_bounds(valves@, s),
            (value_of(best), cache@) == other_to(
                valves@,
                usable_valve_indexes@,
                dists@,
                all_open,
                s,
                old(cache)@,
                k as nat,
            ),
        decreases usable_valve_indexes@.len() - k,
    {
        let to = usable_valve_indexes[k];
        if may_move(
            dists,
            s.open,
            s.el_valve,
            s.el_mins,
            to,
            0,
            Ghost(usable_valve_indexes@),
            Ghost(k as int),
        ) {
            proof {
                lemma_move(
                    valves@,
                    usable_valve_indexes@,
                    dists@,
                    s.open,
                    s.el_valve,
                    s.el_mins,
                    k as int,
                    0,
                );
            }
            let mins = s.el_mins - (dists[s.el_valve][to] + 1) as u16;
            let next = Duo {
                my_valve: s.my_valve,
                el_valve: to,
                my_mins: s.my_mins,
                el_mins: mins,
                pressure: s.pressure + valves[to].rate * mins as usize,
                open: open_bit(s.open, to),
            };
            assert(next == after_other(valves@, usable_valve_indexes@, dists@, s, k as int));
            let found = max_released_pressure_duo(
                next.my_valve,
                next.el_valve,
                next.my_mins,
                next.el_mins,
                next.pressure,
                next.open,
                all_open,
                valves,
                usable_valve_indexes,
                dists,
                cache,
            );
            best = keep_most(best, found);
        }
        k += 1;
    }
    best
}

/// The most found when I move to valve number `mine` of those worth
/// opening and the other moves as well.
pub fn moves_with_me_at(
    s: Duo,
    mine: usize,
    all_open: u64,
    valves: &Vec<Valve>,
    usable_valve_indexes: &Vec<usize>,
    dists: &Vec<Vec<usize>>,
    cache: &mut HashMap<u128, usize>,
) -> (found: Option<usize>)
    requires
        walkable(valves@, usable_valve_indexes@, dists@),
        in_bounds(valves@, s),
        mine < usable_valve_indexes@.len(),
        can_move(usable_valve_indexes@, dists@, s.open, s.my_valve, s.my_mins, mine as int, 0),
    ensures
        (value_of(found), final(cache)@) == with_me_at(
            valves@,
            usable_valve_indexes@,
            dists@,
            all_open,
            s,
            old(cache)@,
            mine as int,
            usable_valve_indexes@.len(),
        ),
    decreases time_left(s), 1int,
{
    let my_to = usable_valve_indexes[mine];
    proof {
        lemma_move(
            valves@,
            usable_valve_indexes@,
            dists@,
            s.open,
            s.my_valve,
            s.my_mins,
            mine as int,
            0,
        );
    }
    let my_mins = s.my_mins - (dists[s.my_valve][my_to] + 1) as u16;
    let mut best: Option<usize> = None;
    let mut k: usize = 0;
    while k < usable_valve_indexes.len()
        invariant
            k <= usable_valve_indexes@.len(),
            walkable(valves@, usable_valve_indexes@, dists@),
            in_bounds(valves@, s),
            mine < usable_valve_indexes@.len(),
            my_to == usable_valve_indexes@[mine as int],
            my_mins == mins_after(
                usable_valve_indexes@,
                dists@,
                s.my_valve,
                s.my_mins,
                mine as int,
            ),
            my_mins < s.my_mins,
            0 <= valves@[my_to as int].rate * my_mins,
            valves@[my_to as int].rate * my_mins + headroom(top_rate(valves@), my_mins as nat)
                <= headroom(top_rate(valves@), s.my_mins as nat),
            (value_of(best), cache@) == with_me_at(
                valves@,
                usable_valve_indexes@,
                dists@,
                all_open,
                s,
                old(cache)@,
                mine as int,
                k as nat,
            ),
        decreases usable_valve_indexes@.len() - k,
    {
        let to = usable_valve_indexes[k];
        if to != my_to && may_move(
            dists,
            s.open,
            s.el_valve,
            s.el_mins,
            to,
            1,
            Ghost(usable_valve_indexes@),
            Ghost(k as int),
        ) {
            proof {
                lemma_move(
                    valves@,
                    usable_valve_indexes@,
                    dists@,
                    s.open,
                    s.el_valve,
                    s.el_mins,
                    k as int,
                    1,
                );
            }
            let el_mins = s.el_mins - (dists[s.el_valve][to] + 1) as u16;
            let next = Duo {
                my_valve: my_to,
                el_valve: to,
                my_mins,
                el_mins,
                pressure: s.pressure + valves[my_to].rate * my_mins as usize + valves[to].rate
                    * el_mins as usize,
                open: open_bit(open_bit(s.open, my_to), to),
            };
            assert(next == after_both(
                valves@,
                usable_valve_indexes@,
                dists@,
                s,
                mine as int,
                k as int,
            ));
            let found = max_released_pressure_duo(
                next.my_valve,
                next.el_valve,
                next.my_mins,
                next.el_mins,
                next.pressure,
                next.open,
                all_open,
                valves,
                usable_valve_indexes,
                dists,
                cache,
            );
            best = keep_most(best, found);
        }
        k += 1;
    }
    best
}

/// The most found when both move.
pub fn moves_of_both(
    s: Duo,
    all_open: u64,
    valves: &Vec<Valve>,
    usable_valve_indexes: &Vec<usize>,
    dists: &Vec<Vec<usize>>,
    cache: &mut HashMap<u128, usize>,
) -> (found: Option<usize>)
    requires
        walkable(valves@, usable_valve_indexes@, dists@),
        in_bounds(valves@, s),
    ensures
        (value_of(found), final(cache)@) == both_to(
            valves@,
            usable_valve_indexes@,
            dists@,
            all_open,
            s,
            old(cache)@,
            usable_valve_indexes@.len(),
        ),
    decreases time_left(s), 2int,
{
    let mut best: Option<usize> = None;
    let mut k: usize = 0;
    while k < usable_valve_indexes.len()
        invariant
            k <= usable_valve_indexes@.len(),
            walkable(valves@, usable_valve_indexes@, dists@),
            in_bounds(valves@, s),
            (value_of(best), cache@) == both_to(
                valves@,
                usable_valve_indexes@,
                dists@,
                all_open,
                s,
                old(cache)@,
                k as nat,
            ),
        decreases usable_valve_indexes@.len() - k,
    {
        let to = usable_valve_indexes[k];
        if may_move(
            dists,
            s.open,
            s.my_valve,
            s.my_mins,
            to,
            0,
            Ghost(usable_valve_indexes@),
            Ghost(k as int),
        ) {
            let found = moves_with_me_at(
                s,
                k,
                all_open,
                valves,
                usable_valve_indexes,
                dists,
                cache,
            );
            best = match found {
                Some(v) => keep_most(best, v),
                None => best,
            };
        }
        k += 1;
    }
    best
}

/// The most pressure that two can release who walk from valve to valve
/// and open valves in the time each has left, as far as states are
/// searched that were not come to before with no less pressure.
pub fn max_released_pressure_duo(
    my_valve_index: usize,
    el_valve_index: usize,
    my_mins_remaining: u16,
    el_mins_remaining: u16,
    pressure_relieved: usize,
    open_valves: u64,
    all_open: u64,
    valves: &Vec<Valve>,
    usable_valve_indexes: &Vec<usize>,
    dists: &Vec<Vec<usize>>,
    cache: &mut HashMap<u128, usize>,
) -> (most: usize)
    requires
        walkable(valves@, usable_valve_indexes@, dists@),
        in_bounds(
            valves@,
            (Duo {
                my_valve: my_valve_index,
                el_valve: el_valve_index,
                my_mins: my_mins_remaining,
                el_mins: el_mins_remaining,
                pressure: pressure_relieved,
                open: open_valves,
            }),
        ),
    ensures
        (most as int, final(cache)@) == duo(
            valves@,
            usable_valve_indexes@,
            dists@,
            all_open,
            (Duo {
                my_valve: my_valve_index,
                el_valve: el_valve_index,
                my_mins: my_mins_remaining,
                el_mins: el_mins_remaining,
                pressure: pressure_relieved,
                open: open_valves,
            }),
            old(cache)@,
        ),
    decreases my_mins_remaining + el_mins_remaining, 3int,
{
    let s = Duo {
        my_valve: my_valve_index,
        el_valve: el_valve_index,
        my_mins: my_mins_remaining,
        el_mins: el_mins_remaining,
        pressure: pressure_relieved,
        open: open_valves,
    };
    if my_mins_remaining == 0 && el_mins_remaining == 0 {
        return pressure_relieved;
    }
    if open_valves == all_open {
        return pressure_relieved;
    }
    let cache_key = key_of(&s);
    let seen = match cache.get(&cache_key) {
        Some(prev) => *prev >= pressure_relieved,
        None => false,
    };
    if seen {
        return 0;
    }
    cache.insert(cache_key, pressure_relieved);
    let mut max = pressure_relieved;
    match moves_of_mine(s, all_open, valves, usable_valve_indexes, dists, cache) {
        Some(m) => {
            if m > max {
                max = m;
            }
        },
        None => {},
    }
    match moves_of_other(s, all_open, valves, usable_valve_indexes, dists, cache) {
        Some(m) => {
            if m > max {
                max = m;
            }
        },
        None => {},
    }
    match moves_of_both(s, all_open, valves, usable_valve_indexes, dists, cache) {
        Some(m) => {
            if m > max {
                max = m;
            }
        },
        None => {},
    }
    max
}

/// Where one who walks alone stands.
#[derive(Debug, Clone, Copy, PartialEq, Eq)]
pub struct Solo {
    pub valve: usize,
    pub mins: u16,
    pub pressure: usize,
    pub open: u64,
}

/// The state is one that a search can go on from: the most pressure that
/// it can come to fits the machine's integers.
pub open spec fn solo_in_bounds(valves: Seq<Valve>, s: Solo) -> bool {
    &&& s.valve < valves.len()
    &&& s.pressure + headroom(top_rate(valves), s.mins as nat) <= usize::MAX
}

/// The state after the move to valve number `idx`.
pub open spec fn after_solo(valves: Seq<Valve>, usable: Seq<usize>, dists: Seq<Vec<usize>>, s: Solo, idx: int) -> Solo {
    let mins = mins_after(usable, dists, s.valve, s.mins, idx);
    Solo {
        valve: usable[idx],
        mins,
        pressure: (s.pressure + valves[usable[idx] as int].rate * mins) as usize,
        open: s.open | (1u64 << (usable[idx] as u64)),
    }
}

/// The most pressure that the search from the state finds: that of the
/// state if time is up, all valves are open, or there is no move; else the
/// most that the searches from the states after a move find.
pub open spec fn solo(
    valves: Seq<Valve>,
    usable: Seq<usize>,
    dists: Seq<Vec<usize>>,
    all_open: u64,
    s: Solo,
) -> int
    decreases s.mins, 1int, 0int,
{
    if s.mins == 0 || s.open == all_open {
        s.pressure as int
    } else {
        let most = solo_moves(valves, usable, dists, all_open, s, usable.len());
        if most >= 0 {
            most
        } else {
            s.pressure as int
        }
    }
}

/// The most that the searches find from the states after a move to one
/// of the first `k` valves worth opening; -1 if there is no such move.
pub open spec fn solo_moves(
    valves: Seq<Valve>,
    usable: Seq<usize>,
    dists: Seq<Vec<usize>>,
    all_open: u64,
    s: Solo,
    k: nat,
) -> int
    decreases s.mins, 0int, k,
{
    if k == 0 {
        -1
    } else {
        let before = solo_moves(valves, usable, dists, all_open, s, (k - 1) as nat);
        let next = after_solo(valves, usable, dists, s, k - 1);
        if can_move(usable, dists, s.open, s.valve, s.mins, k - 1, 0) && next.mins < s.mins {
            larger(before, solo(valves, usable, dists, all_open, next))
        } else {
            before
        }
    }
}

/// The most pressure that one can release who walks from valve to valve
/// and opens valves in the time left.
pub fn max_released_pressure_solo(
    valve_index: usize,
    mins_remaining: u16,
    pressure_relieved: usize,
    open_valves: u64,
    all_open: u64,
    valves: &Vec<Valve>,
    usable_valve_indexes: &Vec<usize>,
    dists: &Vec<Vec<usize>>,
) -> (most: usize)
    requires
        walkable(valves@, usable_valve_indexes@, dists@),
        solo_in_bounds(
            valves@,
            (Solo {
                valve: valve_index,
                mins: mins_remaining,
                pressure: pressure_relieved,
                open: open_valves,
            }),
        ),
    ensures
        most == solo(
            valves@,
            usable_valve_indexes@,
            dists@,
            all_open,
            (Solo {
                valve: valve_index,
                mins: mins_remaining,
                pressure: pressure_relieved,
                open: open_valves,
            }),
        ),
    decreases mins_remaining,
{
    let s = Solo {
        valve: valve_index,
        mins: mins_remaining,
        pressure: pressure_relieved,
        open: open_valves,
    };
    if mins_remaining == 0 {
        return pressure_relieved;
    }
    if open_valves == all_open {
        return pressure_relieved;
    }
    let mut best: Option<usize> = None;
    let mut k: usize = 0;
    while k < usable_valve_indexes.len()
        invariant
            k <= usable_valve_indexes@.len(),
            walkable(valves@, usable_valve_indexes@, dists@),
            solo_in_bounds(valves@, s),
            s.mins == mins_remaining,
            value_of(best) == solo_moves(
                valves@,
                usable_valve_indexes@,
                dists@,
                all_open,
                s,
                k as nat,
            ),
        decreases usable_valve_indexes@.len() - k,
    {
        let to = usable_valve_indexes[k];
        if may_move(
            dists,
            s.open,
            s.valve,
            s.mins,
            to,
            0,
            Ghost(usable_valve_indexes@),
            Ghost(k as int),
        ) {
            proof {
                lemma_move(
                    valves@,
                    usable_valve_indexes@,
                    dists@,
                    s.open,
                    s.valve,
                    s.mins,
                    k as int,
                    0,
                );
            }
            let mins = s.mins - (dists[s.valve][to] + 1) as u16;
            let next = Solo {
                valve: to,
                mins,
                pressure: s.pressure + valves[to].rate * mins as usize,
                open: open_bit(s.open, to),
            };
            assert(next == after_solo(valves@, usable_valve_indexes@, dists@, s, k as int));
            let found = max_released_pressure_solo(
                next.valve,
                next.mins,
                next.pressure,
                next.open,
                all_open,
                valves,
                usable_valve_indexes,
                dists,
            );
            best = keep_most(best, found);
        }
        k += 1;
    }
    match best {
        Some(max) => max,
        None => pressure_relieved,
    }
}

/// The set of all valves worth opening.
pub fn all_valves(usable_valve_indexes: &Vec<usize>) -> (all_open: u64)
    requires
        forall|i: int| 0 <= i < usable_valve_indexes@.len() ==> #[trigger] usable_valve_indexes@[i] < 64,
    ensures
        all_open == all_of(usable_valve_indexes@, usable_valve_indexes@.len()),
{
    let mut all_open: u64 = 0;
    let mut i: usize = 0;
    while i < usable_valve_indexes.len()
        invariant
            i <= usable_valve_indexes@.len(),
            forall|k: int|
                0 <= k < usable_valve_indexes@.len() ==> #[trigger] usable_valve_indexes@[k] < 64,
            all_open == all_of(usable_valve_indexes@, i as nat),
        decreases usable_valve_indexes@.len() - i,
    {
        all_open = open_bit(all_open, usable_valve_indexes[i]);
        i += 1;
    }
    all_open
}

/// The set of the first `n` of the valves.
pub open spec fn all_of(usable: Seq<usize>, n: nat) -> u64
    decreases n,
{
    if n == 0 {
        0
    } else {
        all_of(usable, (n - 1) as nat) | (1u64 << (usable[n - 1] as u64))
    }
}

} // verus!
