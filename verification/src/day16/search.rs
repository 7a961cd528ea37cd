//! The most pressure that opening valves one after the other can release
//! in the time there is, worked out for every set of valves opened.

use std::collections::HashMap;
use vstd::prelude::*;
use crate::day16::{bit_is_set, is_open, Valve};

verus! {

broadcast use vstd::std_specs::hash::group_hash_axioms;

/// The highest rate of flow among the valves.
pub open spec fn top_rate(valves: Seq<Valve>) -> nat
    decreases valves.len(),
{
    if valves.len() == 0 {
        0
    } else if valves.last().rate > top_rate(valves.drop_last()) {
        valves.last().rate as nat
    } else {
        top_rate(valves.drop_last())
    }
}

/// No valve has a higher rate than the highest.
pub proof fn lemma_top_rate(valves: Seq<Valve>, i: int)
    requires
        0 <= i < valves.len(),
    ensures
        valves[i].rate <= top_rate(valves),
    decreases valves.len(),
{
    if i < valves.len() - 1 {
        lemma_top_rate(valves.drop_last(), i);
    }
}

/// The most pressure that `mins` minutes can add where no rate is above
/// `top`: a valve opened with `left` minutes to go adds its rate `left`
/// times, and each valve takes a minute to open.
pub open spec fn headroom(top: nat, mins: nat) -> nat {
    top * mins * mins
}

/// A valve opened with fewer minutes to go adds no more than the headroom
/// falls by.
pub proof fn lemma_headroom(top: nat, rate: nat, before: nat, after: nat)
    requires
        rate <= top,
        after < before,
    ensures
        0 <= rate * after,
        rate * after + headroom(top, after) <= headroom(top, before),
{
    assert(0 <= rate * after && 0 <= top * after * after && rate * after + top * after * after
        <= top * before * before) by (nonlinear_arith)
        requires
            0 <= rate <= top,
            0 <= after < before,
    ;
}

/// Where a search stands: at a valve, with minutes left, valves open, and
/// pressure that will have been released when the time is up.
#[derive(Debug, Clone, Copy, PartialEq, Eq)]
pub struct SearchState {
    pub valve: usize,
    pub mins_remaining: usize,
    pub open_valves: u64,
    pub pressure: usize,
}

/// The cave is one that a search can be run in: every valve worth opening
/// has one of the first 64 numbers, and the distances are those between
/// its valves.
pub open spec fn is_cave(valves: Seq<Valve>, usable: Seq<usize>, dists: Seq<Vec<usize>>) -> bool {
    &&& dists.len() == valves.len()
    &&& forall|i: int| 0 <= i < dists.len() ==> (#[trigger] dists[i])@.len() == valves.len()
    &&& forall|i: int|
        0 <= i < usable.len() ==> (#[trigger] usable[i]) < valves.len() && usable[i] < 64
}

/// The most pressure that a search from the state can come to.
pub open spec fn ceiling(valves: Seq<Valve>, state: SearchState) -> int {
    state.pressure + headroom(top_rate(valves), state.mins_remaining as nat)
}

/// The state is one that a search can go on from: the most pressure that
/// it can come to fits the machine's integers.
pub open spec fn in_reach(valves: Seq<Valve>, state: SearchState) -> bool {
    &&& state.valve < valves.len()
    &&& ceiling(valves, state) <= usize::MAX
}

/// Whether the search goes on from the state to valve number `idx` of
/// those worth opening: the valve is not open, and there is time to walk
/// to it and open it before the time is up.
pub open spec fn goes_on(
    valves: Seq<Valve>,
    usable: Seq<usize>,
    dists: Seq<Vec<usize>>,
    state: SearchState,
    idx: int,
) -> bool {
    &&& !bit_is_set(state.open_valves, usable[idx] as int)
    &&& state.mins_remaining > dists[state.valve as int]@[usable[idx] as int]
}

/// The state after walking to valve number `idx` of those worth opening
/// and opening it.
pub open spec fn after(
    valves: Seq<Valve>,
    usable: Seq<usize>,
    dists: Seq<Vec<usize>>,
    state: SearchState,
    idx: int,
) -> SearchState {
    let next = usable[idx];
    let mins = (state.mins_remaining - dists[state.valve as int]@[next as int] - 1) as usize;
    SearchState {
        valve: next,
        mins_remaining: mins,
        open_valves: state.open_valves | (1u64 << (next as u64)),
        pressure: (state.pressure + valves[next as int].rate * mins) as usize,
    }
}

/// The greater of two numbers.
pub open spec fn larger(a: int, b: int) -> int {
    if a >= b {
        a
    } else {
        b
    }
}

/// The most pressure of the states of the search from `state` on in which
/// exactly the valves of `set` are open; -1 if there is no such state.
pub open spec fn tree_best(
    valves: Seq<Valve>,
    usable: Seq<usize>,
    dists: Seq<Vec<usize>>,
    state: SearchState,
    set: u64,
) -> int
    decreases state.mins_remaining, 1int, 0int,
{
    larger(
        if state.open_valves == set {
            state.pressure as int
        } else {
            -1
        },
        kids_best(valves, usable, dists, state, set, usable.len()),
    )
}

/// The most pressure of the states, with exactly the valves of `set` open,
/// of the searches from the states that `state` goes on to by one of the
/// first `count` valves worth opening; -1 if there is no such state.
pub open spec fn kids_best(
    valves: Seq<Valve>,
    usable: Seq<usize>,
    dists: Seq<Vec<usize>>,
    state: SearchState,
    set: u64,
    count: nat,
) -> int
    decreases state.mins_remaining, 0int, count,
{
    if count == 0 {
        -1
    } else {
        let before = kids_best(valves, usable, dists, state, set, (count - 1) as nat);
        let next = after(valves, usable, dists, state, count - 1);
        if goes_on(valves, usable, dists, state, count - 1) && next.mins_remaining
            < state.mins_remaining {
            larger(before, tree_best(valves, usable, dists, next, set))
        } else {
            before
        }
    }
}

/// Whether the search goes on from the state by valve number `idx` of
/// those worth opening.
pub open spec fn steps_to(
    valves: Seq<Valve>,
    usable: Seq<usize>,
    dists: Seq<Vec<usize>>,
    state: SearchState,
    idx: int,
) -> bool {
    0 <= idx < usable.len() && goes_on(valves, usable, dists, state, idx) && after(
        valves,
        usable,
        dists,
        state,
        idx,
    ).mins_remaining < state.mins_remaining
}

/// The state that a schedule leads to from `state`: a schedule names, one
/// after the other, the valves to walk to and open, each by its number
/// among those worth opening. `None` where the search does not go on by
/// one of them.
pub open spec fn follow(
    valves: Seq<Valve>,
    usable: Seq<usize>,
    dists: Seq<Vec<usize>>,
    state: SearchState,
    schedule: Seq<int>,
) -> Option<SearchState>
    decreases schedule.len(),
{
    if schedule.len() == 0 {
        Some(state)
    } else if steps_to(valves, usable, dists, state, schedule[0]) {
        follow(
            valves,
            usable,
            dists,
            after(valves, usable, dists, state, schedule[0]),
            schedule.drop_first(),
        )
    } else {
        None
    }
}

/// The best of the first `count` ways on is no less than the best of the
/// search from any one of them.
pub proof fn lemma_kids_cover(
    valves: Seq<Valve>,
    usable: Seq<usize>,
    dists: Seq<Vec<usize>>,
    state: SearchState,
    set: u64,
    count: nat,
    idx: int,
)
    requires
        steps_to(valves, usable, dists, state, idx),
        idx < count <= usable.len(),
    ensures
        kids_best(valves, usable, dists, state, set, count) >= tree_best(
            valves,
            usable,
            dists,
            after(valves, usable, dists, state, idx),
            set,
        ),
    decreases count,
{
    if idx < count - 1 {
        lemma_kids_cover(valves, usable, dists, state, set, (count - 1) as nat, idx);
    }
}

/// No schedule comes to more pressure than the best of the search for the
/// set of valves that it opens.
pub proof fn lemma_best_covers(
    valves: Seq<Valve>,
    usable: Seq<usize>,
    dists: Seq<Vec<usize>>,
    state: SearchState,
    schedule: Seq<int>,
)
    requires
        follow(valves, usable, dists, state, schedule) is Some,
    ensures
        tree_best(
            valves,
            usable,
            dists,
            state,
            follow(valves, usable, dists, state, schedule)->0.open_valves,
        ) >= follow(valves, usable, dists, state, schedule)->0.pressure,
    decreases schedule.len(),
{
    if schedule.len() > 0 {
        let next = after(valves, usable, dists, state, schedule[0]);
        let end = follow(valves, usable, dists, state, schedule)->0;
        lemma_best_covers(valves, usable, dists, next, schedule.drop_first());
        lemma_kids_cover(
            valves,
            usable,
            dists,
            state,
            end.open_valves,
            usable.len(),
            schedule[0],
        );
    }
}

/// Where the best of the first `count` ways on is not -1, it is the best
/// of the search from one of them: the way on is given.
pub proof fn lemma_kids_attained(
    valves: Seq<Valve>,
    usable: Seq<usize>,
    dists: Seq<Vec<usize>>,
    state: SearchState,
    set: u64,
    count: nat,
) -> (idx: int)
    requires
        count <= usable.len(),
        kids_best(valves, usable, dists, state, set, count) >= 0,
    ensures
        steps_to(valves, usable, dists, state, idx),
        kids_best(valves, usable, dists, state, set, count) == tree_best(
            valves,
            usable,
            dists,
            after(valves, usable, dists, state, idx),
            set,
        ),
    decreases count,
{
    let before = kids_best(valves, usable, dists, state, set, (count - 1) as nat);
    let next = after(valves, usable, dists, state, count - 1);
    if steps_to(valves, usable, dists, state, count - 1) && tree_best(
        valves,
        usable,
        dists,
        next,
        set,
    ) >= before {
        count - 1
    } else {
        lemma_kids_attained(valves, usable, dists, state, set, (count - 1) as nat)
    }
}

/// Where the best of the search for a set of valves is not -1, a schedule
/// opens exactly that set and comes to that pressure: the schedule is
/// given.
pub proof fn lemma_best_attained(
    valves: Seq<Valve>,
    usable: Seq<usize>,
    dists: Seq<Vec<usize>>,
    state: SearchState,
    set: u64,
) -> (schedule: Seq<int>)
    requires
        tree_best(valves, usable, dists, state, set) >= 0,
    ensures
        follow(valves, usable, dists, state, schedule) matches Some(end) && end.open_valves == set
            && end.pressure == tree_best(valves, usable, dists, state, set),
    decreases state.mins_remaining,
{
    let kids = kids_best(valves, usable, dists, state, set, usable.len());
    if state.open_valves == set && state.pressure >= kids {
        Seq::empty()
    } else {
        let idx = lemma_kids_attained(valves, usable, dists, state, set, usable.len());
        let next = after(valves, usable, dists, state, idx);
        let rest = lemma_best_attained(valves, usable, dists, next, set);
        let schedule = seq![idx] + rest;
        assert(schedule[0] == idx);
        assert(schedule.drop_first() =~= rest);
        schedule
    }
}

/// The most pressure found for each set of valves, and the sets found, in
/// the order in which they were first found.
pub struct Releases {
    pub sets: Vec<u64>,
    pub best: HashMap<u64, usize>,
}

impl Releases {
    /// The most pressure found for the set; -1 if the set was not found.
    pub open spec fn found(&self, set: u64) -> int {
        if self.best@.contains_key(set) {
            self.best@[set] as int
        } else {
            -1
        }
    }

    /// The list holds the sets that the table has an entry for.
    pub open spec fn wf(&self) -> bool {
        forall|set: u64| #[trigger] self.best@.contains_key(set) <==> self.sets@.contains(set)
    }

    /// Notes that the pressure was found for the set.
    pub fn note(&mut self, set: u64, pressure: usize)
        requires
            old(self).wf(),
        ensures
            final(self).wf(),
            forall|other: u64|
                #[trigger] final(self).found(other) == if other == set {
                    larger(old(self).found(set), pressure as int)
                } else {
                    old(self).found(other)
                },
    {
        let cur_best = match self.best.get(&set) {
            Some(b) => Some(*b),
            None => None,
        };
        let ghost before = self.sets@;
        match cur_best {
            Some(b) => {
                let new_best = if b >= pressure {
                    b
                } else {
                    pressure
                };
                self.best.insert(set, new_best);
            },
            None => {
                self.best.insert(set, pressure);
                self.sets.push(set);
                proof {
                    assert forall|s: u64| #[trigger]
                        self.best@.contains_key(s) <==> self.sets@.contains(s) by {
                        if s == set {
                            assert(self.sets@[self.sets@.len() - 1] == s);
                        } else {
                            if before.contains(s) {
                                let i = choose|i: int| 0 <= i < before.len() && before[i] == s;
                                assert(self.sets@[i] == s);
                            }
                            if self.sets@.contains(s) {
                                let i = choose|i: int|
                                    0 <= i < self.sets@.len() && self.sets@[i] == s;
                                assert(before[i] == s);
                            }
                        }
                    }
                }
            },
        }
    }
}

/// Goes through the search from `state` on and notes the pressure of each
/// of its states.
pub fn explore(
    valves: &Vec<Valve>,
    usable_valve_indexes: &Vec<usize>,
    min_dists: &Vec<Vec<usize>>,
    state: SearchState,
    result: &mut Releases,
)
    requires
        is_cave(valves@, usable_valve_indexes@, min_dists@),
        in_reach(valves@, state),
        old(result).wf(),
    ensures
        final(result).wf(),
        forall|set: u64|
            #[trigger] final(result).found(set) == larger(
                old(result).found(set),
                tree_best(valves@, usable_valve_indexes@, min_dists@, state, set),
            ),
    decreases state.mins_remaining, usable_valve_indexes@.len() + 1,
{
    result.note(state.open_valves, state.pressure);
    let mut idx: usize = 0;
    while idx < usable_valve_indexes.len()
        invariant
            idx <= usable_valve_indexes@.len(),
            is_cave(valves@, usable_valve_indexes@, min_dists@),
            in_reach(valves@, state),
            result.wf(),
            forall|set: u64|
                #[trigger] result.found(set) == larger(
                    old(result).found(set),
                    larger(
                        if state.open_valves == set {
                            state.pressure as int
                        } else {
                            -1
                        },
                        kids_best(
                            valves@,
                            usable_valve_indexes@,
                            min_dists@,
                            state,
                            set,
                            idx as nat,
                        ),
                    ),
                ),
        decreases usable_valve_indexes@.len() - idx,
    {
        let next_valve = usable_valve_indexes[idx];
        let dist = min_dists[state.valve][next_valve];
        let ghost mid = *result;
        if !is_open(state.open_valves, next_valve) && state.mins_remaining > dist {
            let new_mins_remaining = state.mins_remaining - dist - 1;
            proof {
                lemma_top_rate(valves@, next_valve as int);
                lemma_headroom(
                    top_rate(valves@),
                    valves@[next_valve as int].rate as nat,
                    state.mins_remaining as nat,
                    new_mins_remaining as nat,
                );
            }
            let next = SearchState {
                valve: next_valve,
                mins_remaining: new_mins_remaining,
                open_valves: open_bit(state.open_valves, next_valve),
                pressure: state.pressure + valves[next_valve].rate * new_mins_remaining,
            };
            assert(next == after(
                valves@,
                usable_valve_indexes@,
                min_dists@,
                state,
                idx as int,
            ));
            explore(valves, usable_valve_indexes, min_dists, next, result);
        }
        proof {
            assert forall|set: u64| #[trigger]
                result.found(set) == larger(
                    old(result).found(set),
                    larger(
                        if state.open_valves == set {
                            state.pressure as int
                        } else {
                            -1
                        },
                        kids_best(
                            valves@,
                            usable_valve_indexes@,
                            min_dists@,
                            state,
                            set,
                            (idx + 1) as nat,
                        ),
                    ),
                ) by {
                assert(mid.found(set) == mid.found(set));
            }
        }
        idx += 1;
    }
}

/// The set of valves with the given one added.
pub fn open_bit(open_valves: u64, valve_index: usize) -> (now: u64)
    requires
        valve_index < 64,
    ensures
        now == open_valves | (1u64 << (valve_index as u64)),
{
    open_valves | (1u64 << (valve_index as u64))
}

/// The state in which a search starts.
pub open spec fn start_state(start_valve_index: usize, mins_allowed: usize) -> SearchState {
    SearchState {
        valve: start_valve_index,
        mins_remaining: mins_allowed,
        open_valves: 0,
        pressure: 0,
    }
}

/// For every set of valves that can be opened one after the other in the
/// time allowed, the most pressure that opening exactly these releases.
pub fn max_pressure_release_for_all_combinations(
    valves: &Vec<Valve>,
    usable_valve_indexes: &Vec<usize>,
    start_valve_index: usize,
    min_dists: &Vec<Vec<usize>>,
    mins_allowed: usize,
) -> (result: Releases)
    requires
        is_cave(valves@, usable_valve_indexes@, min_dists@),
        start_valve_index < valves@.len(),
        headroom(top_rate(valves@), mins_allowed as nat) <= usize::MAX,
    ensures
        result.wf(),
        forall|set: u64|
            #[trigger] result.found(set) == tree_best(
                valves@,
                usable_valve_indexes@,
                min_dists@,
                start_state(start_valve_index, mins_allowed),
                set,
            ),
{
    let mut result = Releases { sets: Vec::new(), best: HashMap::new() };
    let state = SearchState {
        valve: start_valve_index,
        mins_remaining: mins_allowed,
        open_valves: 0,
        pressure: 0,
    };
    explore(valves, usable_valve_indexes, min_dists, state, &mut result);
    proof {
        assert forall|set: u64| #[trigger]
            result.found(set) == tree_best(
                valves@,
                usable_valve_indexes@,
                min_dists@,
                state,
                set,
            ) by {
            lemma_best_from_own(valves@, usable_valve_indexes@, min_dists@, state, set);
        }
    }
    result
}

/// The best of a search for a set is no less than -1.
pub proof fn lemma_best_from_own(
    valves: Seq<Valve>,
    usable: Seq<usize>,
    dists: Seq<Vec<usize>>,
    state: SearchState,
    set: u64,
)
    ensures
        tree_best(valves, usable, dists, state, set) >= -1,
{
}

/// No search comes to more pressure than the ceiling of its first state.
pub proof fn lemma_best_bound(
    valves: Seq<Valve>,
    usable: Seq<usize>,
    dists: Seq<Vec<usize>>,
    state: SearchState,
    set: u64,
    count: nat,
)
    requires
        is_cave(valves, usable, dists),
        in_reach(valves, state),
        count <= usable.len(),
    ensures
        kids_best(valves, usable, dists, state, set, count) <= ceiling(valves, state),
        count == usable.len() ==> tree_best(valves, usable, dists, state, set) <= ceiling(
            valves,
            state,
        ),
    decreases state.mins_remaining, count,
{
    if count > 0 {
        lemma_best_bound(valves, usable, dists, state, set, (count - 1) as nat);
        let next = after(valves, usable, dists, state, count - 1);
        if goes_on(valves, usable, dists, state, count - 1) && next.mins_remaining
            < state.mins_remaining {
            let rate = valves[usable[count - 1] as int].rate;
            let mins = next.mins_remaining;
            lemma_top_rate(valves, usable[count - 1] as int);
            lemma_headroom(
                top_rate(valves),
                rate as nat,
                state.mins_remaining as nat,
                mins as nat,
            );
            lemma_best_bound(valves, usable, dists, next, set, usable.len());
        }
    }
}

impl Releases {
    /// The greatest of the pressures found.
    pub fn greatest(&self) -> (most: usize)
        requires
            self.wf(),
            self.sets@.len() > 0,
        ensures
            exists|set: u64| self.found(set) == most,
            forall|set: u64| #[trigger] self.found(set) <= most,
    {
        let mut most: usize = 0;
        let mut i: usize = 0;
        let ghost mut at: u64 = self.sets@[0];
        while i < self.sets.len()
            invariant
                i <= self.sets@.len(),
                self.wf(),
                self.sets@.len() > 0,
                i == 0 ==> most == 0,
                i > 0 ==> self.found(at) == most,
                forall|j: int| 0 <= j < i ==> self.found(#[trigger] self.sets@[j]) <= most,
            decreases self.sets@.len() - i,
        {
            let set = self.sets[i];
            assert(self.sets@.contains(set));
            let pressure = match self.best.get(&set) {
                Some(p) => *p,
                None => 0,
            };
            if pressure >= most || i == 0 {
                most = pressure;
                proof {
                    at = set;
                }
            }
            i += 1;
        }
        proof {
            assert forall|set: u64| #[trigger] self.found(set) <= most by {
                if self.best@.contains_key(set) {
                    let j = choose|j: int| 0 <= j < self.sets@.len() && self.sets@[j] == set;
                    assert(self.found(self.sets@[j]) <= most);
                }
            }
        }
        most
    }
}

/// The most pressure that opening valves one after the other can release
/// in the time allowed.
pub fn max_pressure_release(
    valves: &Vec<Valve>,
    usable_valve_indexes: &Vec<usize>,
    start_valve_index: usize,
    min_dists: &Vec<Vec<usize>>,
    mins_allowed: usize,
) -> (most: usize)
    requires
        is_cave(valves@, usable_valve_indexes@, min_dists@),
        start_valve_index < valves@.len(),
        headroom(top_rate(valves@), mins_allowed as nat) <= usize::MAX,
    ensures
        exists|set: u64|
            most == #[trigger] tree_best(
                valves@,
                usable_valve_indexes@,
                min_dists@,
                start_state(start_valve_index, mins_allowed),
                set,
            ),
        forall|set: u64|
            #[trigger] tree_best(
                valves@,
                usable_valve_indexes@,
                min_dists@,
                start_state(start_valve_index, mins_allowed),
                set,
            ) <= most,
{
    let max_releases_by_valves = max_pressure_release_for_all_combinations(
        valves,
        usable_valve_indexes,
        start_valve_index,
        min_dists,
        mins_allowed,
    );
    proof {
        assert(max_releases_by_valves.found(0) >= 0);
        assert(max_releases_by_valves.sets@.contains(0u64));
    }
    let most = max_releases_by_valves.greatest();
    proof {
        let set = choose|set: u64| max_releases_by_valves.found(set) == most;
        assert(most == tree_best(
            valves@,
            usable_valve_indexes@,
            min_dists@,
            start_state(start_valve_index, mins_allowed),
            set,
        ));
        assert forall|s: u64|
            #[trigger] tree_best(
                valves@,
                usable_valve_indexes@,
                min_dists@,
                start_state(start_valve_index, mins_allowed),
                s,
            ) <= most by {
            assert(max_releases_by_valves.found(s) <= most);
        }
    }
    most
}

/// Whether two sets of valves can be opened by two who work apart: both
/// were found, and no valve is in both.
pub open spec fn apart(releases: &Releases, a: u64, b: u64) -> bool {
    releases.found(a) >= 0 && releases.found(b) >= 0 && a & b == 0
}

/// The most pressure that two can release who open valves one after the
/// other in the time allowed, each of them valves that the other leaves
/// shut.
pub fn max_pressure_release_by_two_agents(
    valves: &Vec<Valve>,
    usable_valve_indexes: &Vec<usize>,
    start_valve_index: usize,
    min_dists: &Vec<Vec<usize>>,
    mins_allowed: usize,
) -> (most: usize)
    requires
        is_cave(valves@, usable_valve_indexes@, min_dists@),
        start_valve_index < valves@.len(),
        2 * headroom(top_rate(valves@), mins_allowed as nat) <= usize::MAX,
    ensures
        exists|a: u64, b: u64|
            {
                &&& a & b == 0
                &&& #[trigger] tree_best(
                    valves@,
                    usable_valve_indexes@,
                    min_dists@,
                    start_state(start_valve_index, mins_allowed),
                    a,
                ) >= 0
                &&& #[trigger] tree_best(
                    valves@,
                    usable_valve_indexes@,
                    min_dists@,
                    start_state(start_valve_index, mins_allowed),
                    b,
                ) >= 0
                &&& most == tree_best(
                    valves@,
                    usable_valve_indexes@,
                    min_dists@,
                    start_state(start_valve_index, mins_allowed),
                    a,
                ) + tree_best(
                    valves@,
                    usable_valve_indexes@,
                    min_dists@,
                    start_state(start_valve_index, mins_allowed),
                    b,
                )
            },
        forall|a: u64, b: u64|
            a & b == 0 && #[trigger] tree_best(
                valves@,
                usable_valve_indexes@,
                min_dists@,
                start_state(start_valve_index, mins_allowed),
                a,
            ) >= 0 && #[trigger] tree_best(
                valves@,
                usable_valve_indexes@,
                min_dists@,
                start_state(start_valve_index, mins_allowed),
                b,
            ) >= 0 ==> tree_best(
                valves@,
                usable_valve_indexes@,
                min_dists@,
                start_state(start_valve_index, mins_allowed),
                a,
            ) + tree_best(
                valves@,
                usable_valve_indexes@,
                min_dists@,
                start_state(start_valve_index, mins_allowed),
                b,
            ) <= most,
{
    let releases = max_pressure_release_for_all_combinations(
        valves,
        usable_valve_indexes,
        start_valve_index,
        min_dists,
        mins_allowed,
    );
    let ghost start = start_state(start_valve_index, mins_allowed);
    proof {
        assert forall|set: u64| 2 * #[trigger] releases.found(set) <= usize::MAX by {
            lemma_best_bound(
                valves@,
                usable_valve_indexes@,
                min_dists@,
                start,
                set,
                usable_valve_indexes@.len(),
            );
        }
        assert(releases.found(0) >= 0);
        assert(0u64 & 0u64 == 0) by (bit_vector);
    }
    let most = releases.greatest_apart();
    proof {
        let (a, b) = choose|a: u64, b: u64| #[trigger]
            apart(&releases, a, b) && most == releases.found(a) + releases.found(b);
        assert(releases.found(a) == tree_best(
            valves@,
            usable_valve_indexes@,
            min_dists@,
            start,
            a,
        ));
        assert(releases.found(b) == tree_best(
            valves@,
            usable_valve_indexes@,
            min_dists@,
            start,
            b,
        ));
        assert forall|c: u64, d: u64|
            c & d == 0 && #[trigger] tree_best(
                valves@,
                usable_valve_indexes@,
                min_dists@,
                start,
                c,
            ) >= 0 && #[trigger] tree_best(valves@, usable_valve_indexes@, min_dists@, start, d)
                >= 0 implies tree_best(valves@, usable_valve_indexes@, min_dists@, start, c)
            + tree_best(valves@, usable_valve_indexes@, min_dists@, start, d) <= most by {
            assert(releases.found(c) >= 0 && releases.found(d) >= 0);
            assert(apart(&releases, c, d));
        }
    }
    most
}

impl Releases {
    /// The greatest sum of the pressures found for two sets that share no
    /// valve.
    pub fn greatest_apart(&self) -> (most: usize)
        requires
            self.wf(),
            apart(self, 0, 0),
            forall|set: u64| 2 * #[trigger] self.found(set) <= usize::MAX,
        ensures
            exists|a: u64, b: u64| #[trigger]
                apart(self, a, b) && most == self.found(a) + self.found(b),
            forall|a: u64, b: u64| #[trigger]
                apart(self, a, b) ==> self.found(a) + self.found(b) <= most,
    {
        let mut max_combined: usize = 0;
        let ghost mut pair: (u64, u64) = (0, 0);
        let n = self.sets.len();
        let mut i: usize = 0;
        proof {
            assert(self.sets@.contains(0u64));
            assert(self.found(0) + self.found(0) >= 0);
        }
        while i < n
            invariant
                i <= n,
                n == self.sets@.len(),
                self.wf(),
                forall|set: u64| 2 * #[trigger] self.found(set) <= usize::MAX,
                (max_combined == 0 && forall|a: int, b: int|
                    0 <= a < i && 0 <= b < n ==> !#[trigger] apart(
                        self,
                        self.sets@[a],
                        self.sets@[b],
                    )) || (apart(self, pair.0, pair.1) && max_combined == self.found(pair.0)
                    + self.found(pair.1)),
                forall|a: int, b: int|
                    0 <= a < i && 0 <= b < n && #[trigger] apart(self, self.sets@[a], self.sets@[b])
                        ==> self.found(self.sets@[a]) + self.found(self.sets@[b]) <= max_combined,
            decreases n - i,
        {
            let one = self.sets[i];
            assert(self.sets@.contains(one));
            let one_pressure = match self.best.get(&one) {
                Some(p) => *p,
                None => 0,
            };
            let mut j: usize = 0;
            while j < n
                invariant
                    j <= n,
                    i < n,
                    n == self.sets@.len(),
                    self.wf(),
                    one == self.sets@[i as int],
                    one_pressure == self.found(one),
                    forall|set: u64| 2 * #[trigger] self.found(set) <= usize::MAX,
                    (max_combined == 0 && forall|a: int, b: int|
                        0 <= a <= i && 0 <= b < n && (a < i || b < j) ==> !#[trigger] apart(
                            self,
                            self.sets@[a],
                            self.sets@[b],
                        )) || (apart(self, pair.0, pair.1) && max_combined == self.found(pair.0)
                        + self.found(pair.1)),
                    forall|a: int, b: int|
                        0 <= a <= i && 0 <= b < n && (a < i || b < j) && #[trigger] apart(
                            self,
                            self.sets@[a],
                            self.sets@[b],
                        ) ==> self.found(self.sets@[a]) + self.found(self.sets@[b]) <= max_combined,
                decreases n - j,
            {
                let two = self.sets[j];
                assert(self.sets@.contains(two));
                let two_pressure = match self.best.get(&two) {
                    Some(p) => *p,
                    None => 0,
                };
                if one & two == 0 {
                    assert(apart(self, one, two));
                    if one_pressure + two_pressure >= max_combined {
                        max_combined = one_pressure + two_pressure;
                        proof {
                            pair = (one, two);
                        }
                    }
                }
                j += 1;
            }
            i += 1;
        }
        proof {
            assert forall|a: u64, b: u64| #[trigger] apart(self, a, b) implies self.found(a)
                + self.found(b) <= max_combined by {
                let x = choose|x: int| 0 <= x < n && self.sets@[x] == a;
                let y = choose|y: int| 0 <= y < n && self.sets@[y] == b;
                assert(apart(self, self.sets@[x], self.sets@[y]));
            }
            assert(apart(self, 0, 0));
            if !(apart(self, pair.0, pair.1) && max_combined == self.found(pair.0) + self.found(
                pair.1,
            )) {
                let x = choose|x: int| 0 <= x < n && self.sets@[x] == 0u64;
                assert(apart(self, self.sets@[x], self.sets@[x]));
            }
        }
        max_combined
    }
}

} // verus!
