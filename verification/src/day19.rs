//! Robots that collect ore, clay, obsidian and geodes, and the search for
//! the most geodes a factory can open in the time it has.

use vstd::prelude::*;
use vstd::arithmetic::div_mod::{lemma_fundamental_div_mod, lemma_mod_bound};
use crate::pattern::{find_texts, found_in, taken, texts_of};
use crate::text::{nat_of_text, parse_usize_text};

verus! {

/// What each kind of robot costs.
#[derive(Debug, Clone, Copy, PartialEq, Eq)]
pub struct Blueprint {
    pub id: usize,
    pub ore_ore: usize,
    pub clay_ore: usize,
    pub obsidian_ore: usize,
    pub obsidian_clay: usize,
    pub geode_ore: usize,
    pub geode_obsidian: usize,
    /// The most ore that any robot costs.
    pub max_ore: usize,
}

/// The stock of each material, the robots of each kind, and the minutes
/// that are left.
#[derive(Debug, Clone, Copy, PartialEq, Eq)]
pub struct State {
    pub ore: usize,
    pub clay: usize,
    pub obsidian: usize,
    pub geode: usize,
    pub ore_robots: usize,
    pub clay_robots: usize,
    pub obsidian_robots: usize,
    pub geode_robots: usize,
    pub time_remaining: usize,
}

/// The most that can come to be in stock of a material of which `stock`
/// is in stock and which `robots` robots collect, with `time` minutes to
/// go: what the robots at hand collect, and what the robots yet to be
/// built collect, one more with every minute at most.
pub open spec fn room(stock: usize, robots: usize, time: usize) -> nat {
    (stock + robots * time + time * time) as nat
}

/// The minutes that `robots` robots need to collect `required`: the
/// quotient, rounded up.
pub open spec fn minutes_for(required: int, robots: int) -> int {
    (required + robots - 1) / robots
}

/// What is missing of `cost` when `stock` is at hand.
pub open spec fn missing(cost: int, stock: int) -> int {
    if cost > stock {
        cost - stock
    } else {
        0
    }
}

/// The greater of two numbers.
pub open spec fn greater(a: int, b: int) -> int {
    if a >= b {
        a
    } else {
        b
    }
}

impl State {
    /// The state at the start: one ore robot, nothing in stock.
    pub open spec fn spec_default(time_remaining: usize) -> State {
        State {
            ore: 0,
            clay: 0,
            obsidian: 0,
            geode: 0,
            ore_robots: 1,
            clay_robots: 0,
            obsidian_robots: 0,
            geode_robots: 0,
            time_remaining,
        }
    }

    /// The state after `mins` minutes in which every robot collects and
    /// nothing is built.
    pub open spec fn idled(&self, mins: int) -> State {
        State {
            ore: (self.ore + self.ore_robots * mins) as usize,
            clay: (self.clay + self.clay_robots * mins) as usize,
            obsidian: (self.obsidian + self.obsidian_robots * mins) as usize,
            geode: (self.geode + self.geode_robots * mins) as usize,
            time_remaining: (self.time_remaining - mins) as usize,
            ..*self
        }
    }

    /// The state after a minute in which every robot collects and the
    /// given amounts are spent.
    pub open spec fn spent(&self, ore_cost: int, clay_cost: int, obsidian_cost: int) -> State {
        State {
            ore: (self.ore + self.ore_robots - ore_cost) as usize,
            clay: (self.clay + self.clay_robots - clay_cost) as usize,
            obsidian: (self.obsidian + self.obsidian_robots - obsidian_cost) as usize,
            geode: (self.geode + self.geode_robots) as usize,
            time_remaining: (self.time_remaining - 1) as usize,
            ..*self
        }
    }

    /// A minute of collecting while the given amounts are spent is possible
    /// within the machine's integers.
    pub open spec fn can_spend(&self, ore_cost: int, clay_cost: int, obsidian_cost: int) -> bool {
        &&& self.time_remaining >= 1
        &&& ore_cost <= self.ore + self.ore_robots <= usize::MAX
        &&& clay_cost <= self.clay + self.clay_robots <= usize::MAX
        &&& obsidian_cost <= self.obsidian + self.obsidian_robots <= usize::MAX
        &&& self.geode + self.geode_robots <= usize::MAX
    }

    /// The state is one that a search can go on from: for each material,
    /// the most that can come to be in stock, and the number of robots,
    /// fit the machine's integers, signed ones too.
    pub open spec fn within(&self) -> bool {
        &&& room(self.ore, self.ore_robots, self.time_remaining) <= isize::MAX
        &&& room(self.clay, self.clay_robots, self.time_remaining) <= isize::MAX
        &&& room(self.obsidian, self.obsidian_robots, self.time_remaining) <= isize::MAX
        &&& room(self.geode, self.geode_robots, self.time_remaining) <= isize::MAX
        &&& self.ore_robots <= isize::MAX
        &&& self.clay_robots <= isize::MAX
        &&& self.obsidian_robots <= isize::MAX
        &&& self.geode_robots <= isize::MAX
    }

    /// The most geodes that can come to be in stock.
    pub open spec fn geode_room(&self) -> nat {
        room(self.geode, self.geode_robots, self.time_remaining)
    }

    /// One ore robot, nothing in stock.
    pub fn default(time_remaining: usize) -> (state: State)
        ensures
            state == State::spec_default(time_remaining),
    {
        State {
            ore: 0,
            clay: 0,
            obsidian: 0,
            geode: 0,
            ore_robots: 1,
            clay_robots: 0,
            obsidian_robots: 0,
            geode_robots: 0,
            time_remaining,
        }
    }

    /// Collects for `mins` minutes.
    pub fn idle_for(&self, mins: usize) -> (state: State)
        requires
            mins <= self.time_remaining,
            self.ore + self.ore_robots * mins <= usize::MAX,
            self.clay + self.clay_robots * mins <= usize::MAX,
            self.obsidian + self.obsidian_robots * mins <= usize::MAX,
            self.geode + self.geode_robots * mins <= usize::MAX,
        ensures
            state == self.idled(mins as int),
    {
        proof {
            assert(0 <= self.ore_robots * mins) by (nonlinear_arith);
            assert(0 <= self.clay_robots * mins) by (nonlinear_arith);
            assert(0 <= self.obsidian_robots * mins) by (nonlinear_arith);
            assert(0 <= self.geode_robots * mins) by (nonlinear_arith);
        }
        State {
            ore: self.ore + (self.ore_robots * mins),
            clay: self.clay + (self.clay_robots * mins),
            obsidian: self.obsidian + (self.obsidian_robots * mins),
            geode: self.geode + (self.geode_robots * mins),
            time_remaining: self.time_remaining - mins,
            ore_robots: self.ore_robots,
            clay_robots: self.clay_robots,
            obsidian_robots: self.obsidian_robots,
            geode_robots: self.geode_robots,
        }
    }

    /// Collects for a minute while an ore robot is built.
    pub fn build_ore_robot(&self, ore_cost: usize) -> (state: State)
        requires
            self.can_spend(ore_cost as int, 0, 0),
            self.ore_robots < usize::MAX,
        ensures
            state == (State {
                ore_robots: (self.ore_robots + 1) as usize,
                ..self.spent(ore_cost as int, 0, 0)
            }),
    {
        State {
            ore: self.ore + self.ore_robots - ore_cost,
            clay: self.clay + self.clay_robots,
            obsidian: self.obsidian + self.obsidian_robots,
            geode: self.geode + self.geode_robots,
            time_remaining: self.time_remaining - 1,
            ore_robots: self.ore_robots + 1,
            clay_robots: self.clay_robots,
            obsidian_robots: self.obsidian_robots,
            geode_robots: self.geode_robots,
        }
    }

    /// Collects for a minute while a clay robot is built.
    pub fn build_clay_robot(&self, ore_cost: usize) -> (state: State)
        requires
            self.can_spend(ore_cost as int, 0, 0),
            self.clay_robots < usize::MAX,
        ensures
            state == (State {
                clay_robots: (self.clay_robots + 1) as usize,
                ..self.spent(ore_cost as int, 0, 0)
            }),
    {
        State {
            ore: self.ore + self.ore_robots - ore_cost,
            clay: self.clay + self.clay_robots,
            obsidian: self.obsidian + self.obsidian_robots,
            geode: self.geode + self.geode_robots,
            time_remaining: self.time_remaining - 1,
            ore_robots: self.ore_robots,
            clay_robots: self.clay_robots + 1,
            obsidian_robots: self.obsidian_robots,
            geode_robots: self.geode_robots,
        }
    }

    /// Collects for a minute while an obsidian robot is built.
    pub fn build_obsidian_robot(&self, ore_cost: usize, clay_cost: usize) -> (state: State)
        requires
            self.can_spend(ore_cost as int, clay_cost as int, 0),
            self.obsidian_robots < usize::MAX,
        ensures
            state == (State {
                obsidian_robots: (self.obsidian_robots + 1) as usize,
                ..self.spent(ore_cost as int, clay_cost as int, 0)
            }),
    {
        State {
            ore: self.ore + self.ore_robots - ore_cost,
            clay: self.clay + self.clay_robots - clay_cost,
            obsidian: self.obsidian + self.obsidian_robots,
            geode: self.geode + self.geode_robots,
            time_remaining: self.time_remaining - 1,
            ore_robots: self.ore_robots,
            clay_robots: self.clay_robots,
            obsidian_robots: self.obsidian_robots + 1,
            geode_robots: self.geode_robots,
        }
    }

    /// Collects for a minute while a geode robot is built.
    pub fn build_geode_robot(&self, ore_cost: usize, obsidian_cost: usize) -> (state: State)
        requires
            self.can_spend(ore_cost as int, 0, obsidian_cost as int),
            self.geode_robots < usize::MAX,
        ensures
            state == (State {
                geode_robots: (self.geode_robots + 1) as usize,
                ..self.spent(ore_cost as int, 0, obsidian_cost as int)
            }),
    {
        State {
            ore: self.ore + self.ore_robots - ore_cost,
            clay: self.clay + self.clay_robots,
            obsidian: self.obsidian + self.obsidian_robots - obsidian_cost,
            geode: self.geode + self.geode_robots,
            time_remaining: self.time_remaining - 1,
            ore_robots: self.ore_robots,
            clay_robots: self.clay_robots,
            obsidian_robots: self.obsidian_robots,
            geode_robots: self.geode_robots + 1,
        }
    }
}

/// The minutes that `robots` robots need to collect `required`.
pub fn minutes_until(required: usize, robots: usize) -> (mins: usize)
    requires
        robots > 0,
        required + robots <= usize::MAX,
    ensures
        mins == minutes_for(required as int, robots as int),
        robots * mins >= required,
        mins <= required,
{
    let mins = (required + robots - 1) / robots;
    proof {
        let a = required + robots - 1;
        lemma_fundamental_div_mod(a, robots as int);
        lemma_mod_bound(a, robots as int);
        assert(robots * mins >= required);
        assert(mins <= required) by (nonlinear_arith)
            requires
                robots * mins == a - a % (robots as int),
                0 <= a % (robots as int),
                a == required + robots - 1,
                robots >= 1,
                mins >= 0,
        ;
    }
    mins
}

/// With fewer minutes to go, what was collected on the way and one robot
/// more leave no more room than there was.
pub proof fn lemma_room(stock: usize, robots: usize, time: usize, mins: int)
    requires
        0 <= mins < time,
    ensures
        0 <= robots * mins <= robots * (mins + 1) <= robots * time,
        stock + robots * time <= room(stock, robots, time),
        stock + robots * (mins + 1) + (robots + 1) * (time - mins - 1) + (time - mins - 1) * (time
            - mins - 1) <= room(stock, robots, time),
        time >= 1 ==> robots <= robots * time,
        0 <= robots * (time - mins - 1) <= (robots + 1) * (time - mins - 1),
        0 <= (time - mins - 1) * (time - mins - 1),
        robots + 1 <= robots * time + time * time,
        time <= time * time,
        robots * (mins + 1) == robots * mins + robots,
{
    let left = time - mins - 1;
    assert(0 <= robots * mins <= robots * (mins + 1) <= robots * time && robots * (mins + 1) + (
    robots + 1) * left + left * left <= robots * time + time * time && robots <= robots * time && 0
        <= time * time && 0 <= robots * left <= (robots + 1) * left && 0 <= left * left
        && robots + 1 <= robots * time + time * time && time <= time * time && robots * (mins
        + 1) == robots * mins + robots) by (nonlinear_arith)
        requires
            0 <= mins < time,
            left == time - mins - 1,
            0 <= robots,
    ;
}

/// Waiting `mins` minutes and then spending what was waited for keeps a
/// state within what a search can go on from, with room for one robot
/// more.
pub proof fn lemma_wait_and_spend(
    state: State,
    mins: int,
    ore_cost: int,
    clay_cost: int,
    obsidian_cost: int,
)
    requires
        state.within(),
        0 <= mins < state.time_remaining,
        0 <= ore_cost <= state.ore + state.ore_robots * mins,
        0 <= clay_cost <= state.clay + state.clay_robots * mins,
        0 <= obsidian_cost <= state.obsidian + state.obsidian_robots * mins,
    ensures
        state.ore + state.ore_robots * mins <= isize::MAX,
        state.clay + state.clay_robots * mins <= isize::MAX,
        state.obsidian + state.obsidian_robots * mins <= isize::MAX,
        state.geode + state.geode_robots * mins <= isize::MAX,
        state.ore_robots < isize::MAX,
        state.clay_robots < isize::MAX,
        state.obsidian_robots < isize::MAX,
        state.geode_robots < isize::MAX,
        state.idled(mins).can_spend(ore_cost, clay_cost, obsidian_cost),
        state.idled(mins).spent(ore_cost, clay_cost, obsidian_cost).time_remaining
            == state.time_remaining - mins - 1,
        (State {
            ore_robots: (state.ore_robots + 1) as usize,
            ..state.idled(mins).spent(ore_cost, clay_cost, obsidian_cost)
        }).within(),
        (State {
            clay_robots: (state.clay_robots + 1) as usize,
            ..state.idled(mins).spent(ore_cost, clay_cost, obsidian_cost)
        }).within(),
        (State {
            obsidian_robots: (state.obsidian_robots + 1) as usize,
            ..state.idled(mins).spent(ore_cost, clay_cost, obsidian_cost)
        }).within(),
        (State {
            geode_robots: (state.geode_robots + 1) as usize,
            ..state.idled(mins).spent(ore_cost, clay_cost, obsidian_cost)
        }).within(),
        (State {
            ore_robots: (state.ore_robots + 1) as usize,
            ..state.idled(mins).spent(ore_cost, clay_cost, obsidian_cost)
        }).geode_room() <= state.geode_room(),
        (State {
            clay_robots: (state.clay_robots + 1) as usize,
            ..state.idled(mins).spent(ore_cost, clay_cost, obsidian_cost)
        }).geode_room() <= state.geode_room(),
        (State {
            obsidian_robots: (state.obsidian_robots + 1) as usize,
            ..state.idled(mins).spent(ore_cost, clay_cost, obsidian_cost)
        }).geode_room() <= state.geode_room(),
        (State {
            geode_robots: (state.geode_robots + 1) as usize,
            ..state.idled(mins).spent(ore_cost, clay_cost, obsidian_cost)
        }).geode_room() <= state.geode_room(),
{
    lemma_room(state.ore, state.ore_robots, state.time_remaining, mins);
    lemma_room(state.clay, state.clay_robots, state.time_remaining, mins);
    lemma_room(state.obsidian, state.obsidian_robots, state.time_remaining, mins);
    lemma_room(state.geode, state.geode_robots, state.time_remaining, mins);
}

impl Blueprint {
    /// Every cost fits the machine's signed integers, and so does what
    /// the costs that are weighed against stock come to in `time`
    /// minutes.
    pub open spec fn modest(&self, time: usize) -> bool {
        &&& self.ore_ore <= isize::MAX
        &&& self.clay_ore <= isize::MAX
        &&& self.obsidian_ore <= isize::MAX
        &&& self.geode_ore <= isize::MAX
        &&& self.max_ore * time <= isize::MAX
        &&& self.obsidian_clay * time <= isize::MAX
        &&& self.geode_obsidian * time <= isize::MAX
        &&& self.max_ore <= isize::MAX
        &&& self.obsidian_clay <= isize::MAX
        &&& self.geode_obsidian <= isize::MAX
    }

    /// Costs that fit for some time fit for a shorter one.
    pub proof fn lemma_modest(&self, time: usize, shorter: usize)
        requires
            self.modest(time),
            shorter <= time,
        ensures
            self.modest(shorter),
    {
        assert(self.max_ore * shorter <= self.max_ore * time && self.obsidian_clay * shorter
            <= self.obsidian_clay * time && self.geode_obsidian * shorter <= self.geode_obsidian
            * time) by (nonlinear_arith)
            requires
                shorter <= time,
        ;
    }

    /// The state once the next ore robot is built, if there are robots to
    /// collect for it, time to build it, and more ore could yet be spent
    /// than the robots at hand will collect.
    pub open spec fn with_ore_robot(&self, s: State) -> Option<State> {
        let mins = minutes_for(missing(self.ore_ore as int, s.ore as int), s.ore_robots as int);
        if s.ore_robots > 0 && mins < s.time_remaining && (self.max_ore - s.ore_robots)
            * s.time_remaining > s.ore {
            Some(
                State {
                    ore_robots: (s.ore_robots + 1) as usize,
                    ..s.idled(mins).spent(self.ore_ore as int, 0, 0)
                },
            )
        } else {
            None
        }
    }

    /// The state once the next clay robot is built, if that is possible and
    /// the clay at hand will not do for the obsidian robots to come.
    pub open spec fn with_clay_robot(&self, s: State) -> Option<State> {
        let mins = minutes_for(missing(self.clay_ore as int, s.ore as int), s.ore_robots as int);
        if s.ore_robots > 0 && mins < s.time_remaining && (s.clay_robots - self.obsidian_clay)
            * s.time_remaining < s.clay {
            Some(
                State {
                    clay_robots: (s.clay_robots + 1) as usize,
                    ..s.idled(mins).spent(self.clay_ore as int, 0, 0)
                },
            )
        } else {
            None
        }
    }

    /// The state once the next obsidian robot is built, if that is possible
    /// and the obsidian at hand will not do for the geode robots to come.
    pub open spec fn with_obsidian_robot(&self, s: State) -> Option<State> {
        let ore_mins = minutes_for(
            missing(self.obsidian_ore as int, s.ore as int),
            s.ore_robots as int,
        );
        let clay_mins = minutes_for(
            missing(self.obsidian_clay as int, s.clay as int),
            s.clay_robots as int,
        );
        let mins = greater(ore_mins, clay_mins);
        if s.ore_robots > 0 && s.clay_robots > 0 && mins < s.time_remaining && (s.obsidian_robots
            - self.geode_obsidian) * s.time_remaining < s.obsidian {
            Some(
                State {
                    obsidian_robots: (s.obsidian_robots + 1) as usize,
                    ..s.idled(mins).spent(self.obsidian_ore as int, self.obsidian_clay as int, 0)
                },
            )
        } else {
            None
        }
    }

    /// The state once the next geode robot is built, if that is possible.
    pub open spec fn with_geode_robot(&self, s: State) -> Option<State> {
        let ore_mins = minutes_for(
            missing(self.geode_ore as int, s.ore as int),
            s.ore_robots as int,
        );
        let obsidian_mins = minutes_for(
            missing(self.geode_obsidian as int, s.obsidian as int),
            s.obsidian_robots as int,
        );
        let mins = greater(ore_mins, obsidian_mins);
        if s.ore_robots > 0 && s.obsidian_robots > 0 && mins < s.time_remaining {
            Some(
                State {
                    geode_robots: (s.geode_robots + 1) as usize,
                    ..s.idled(mins).spent(self.geode_ore as int, 0, self.geode_obsidian as int)
                },
            )
        } else {
            None
        }
    }

    /// The most geodes that one of the states of the search from `next` has
    /// in stock, where `next` is a step on from `s`; 0 where there is no
    /// such step.
    pub open spec fn best_after(&self, s: State, next: Option<State>) -> int
        decreases s.time_remaining, 0int,
    {
        match next {
            Some(n) => if n.time_remaining < s.time_remaining {
                self.best(n)
            } else {
                0
            },
            None => 0,
        }
    }

    /// The most geodes that one of the states of the search from `s` has in
    /// stock. The search goes on from a state to the states in which the
    /// next robot of some kind is built, or, where none can be built, to
    /// the state in which the time has run out.
    pub open spec fn best(&self, s: State) -> int
        decreases s.time_remaining, 1int,
    {
        if s.time_remaining == 0 {
            s.geode as int
        } else {
            let ore = self.with_ore_robot(s);
            let clay = self.with_clay_robot(s);
            let obsidian = self.with_obsidian_robot(s);
            let geode = self.with_geode_robot(s);
            let waited = if ore is None && clay is None && obsidian is None && geode is None {
                s.idled(s.time_remaining as int).geode as int
            } else {
                0
            };
            greater(
                s.geode as int,
                greater(
                    self.best_after(s, ore),
                    greater(
                        self.best_after(s, clay),
                        greater(
                            self.best_after(s, obsidian),
                            greater(self.best_after(s, geode), waited),
                        ),
                    ),
                ),
            )
        }
    }

    /// The state once the next ore robot is built, if it is worth building.
    pub fn next_with_ore_robot(&self, state: &State) -> (next: Option<State>)
        requires
            self.modest(state.time_remaining),
            state.within(),
        ensures
            next == self.with_ore_robot(*state),
            next matches Some(n) ==> n.within() && n.time_remaining < state.time_remaining
                && n.geode_room() <= state.geode_room(),
    {
        if state.ore_robots > 0 {
            let ore_required = spare(self.ore_ore, state.ore);
            let mins_required = minutes_until(ore_required, state.ore_robots);
            if mins_required < state.time_remaining {
                let ore_deficit_per_min = self.max_ore as isize - state.ore_robots as isize;
                proof {
                    lemma_stockpile(
                        self.max_ore as int,
                        state.ore_robots as int,
                        state.time_remaining as int,
                    );
                    lemma_room(state.ore, state.ore_robots, state.time_remaining, 0);
                    lemma_wait_and_spend(*state, mins_required as int, self.ore_ore as int, 0, 0);
                }
                let ore_stockpile_required = ore_deficit_per_min * state.time_remaining as isize;
                if ore_stockpile_required > state.ore as isize {
                    return Some(state.idle_for(mins_required).build_ore_robot(self.ore_ore));
                }
            }
        }
        None
    }

    /// The state once the next clay robot is built, if it is worth building.
    pub fn next_with_clay_robot(&self, state: &State) -> (next: Option<State>)
        requires
            self.modest(state.time_remaining),
            state.within(),
        ensures
            next == self.with_clay_robot(*state),
            next matches Some(n) ==> n.within() && n.time_remaining < state.time_remaining
                && n.geode_room() <= state.geode_room(),
    {
        if state.ore_robots > 0 {
            let ore_required = spare(self.clay_ore, state.ore);
            let mins_required = minutes_until(ore_required, state.ore_robots);
            if mins_required < state.time_remaining {
                let clay_deficit_per_min = state.clay_robots as isize - self.obsidian_clay as isize;
                proof {
                    lemma_stockpile(
                        state.clay_robots as int,
                        self.obsidian_clay as int,
                        state.time_remaining as int,
                    );
                    lemma_room(state.clay, state.clay_robots, state.time_remaining, 0);
                    lemma_wait_and_spend(*state, mins_required as int, self.clay_ore as int, 0, 0);
                }
                let clay_stockpile_required = clay_deficit_per_min * state.time_remaining as isize;
                if clay_stockpile_required < state.clay as isize {
                    return Some(state.idle_for(mins_required).build_clay_robot(self.clay_ore));
                }
            }
        }
        None
    }

    /// The state once the next obsidian robot is built, if it is worth
    /// building.
    pub fn next_with_obsidian_robot(&self, state: &State) -> (next: Option<State>)
        requires
            self.modest(state.time_remaining),
            state.within(),
        ensures
            next == self.with_obsidian_robot(*state),
            next matches Some(n) ==> n.within() && n.time_remaining < state.time_remaining
                && n.geode_room() <= state.geode_room(),
    {
        if state.ore_robots > 0 && state.clay_robots > 0 {
            let ore_required = spare(self.obsidian_ore, state.ore);
            let ore_mins_required = minutes_until(ore_required, state.ore_robots);
            let clay_required = spare(self.obsidian_clay, state.clay);
            let clay_mins_required = minutes_until(clay_required, state.clay_robots);
            let mins_required = if ore_mins_required >= clay_mins_required {
                ore_mins_required
            } else {
                clay_mins_required
            };
            if mins_required < state.time_remaining {
                let obsidian_deficit_per_min = state.obsidian_robots as isize
                    - self.geode_obsidian as isize;
                proof {
                    lemma_stockpile(
                        state.obsidian_robots as int,
                        self.geode_obsidian as int,
                        state.time_remaining as int,
                    );
                    lemma_room(state.obsidian, state.obsidian_robots, state.time_remaining, 0);
                    lemma_more_minutes(
                        state.ore_robots as int,
                        ore_mins_required as int,
                        mins_required as int,
                    );
                    lemma_more_minutes(
                        state.clay_robots as int,
                        clay_mins_required as int,
                        mins_required as int,
                    );
                    lemma_wait_and_spend(
                        *state,
                        mins_required as int,
                        self.obsidian_ore as int,
                        self.obsidian_clay as int,
                        0,
                    );
                }
                let obsidian_stockpile_required = obsidian_deficit_per_min
                    * state.time_remaining as isize;
                if obsidian_stockpile_required < state.obsidian as isize {
                    return Some(
                        state.idle_for(mins_required).build_obsidian_robot(
                            self.obsidian_ore,
                            self.obsidian_clay,
                        ),
                    );
                }
            }
        }
        None
    }

    /// The state once the next geode robot is built, if one can be built.
    pub fn next_with_geode_robot(&self, state: &State) -> (next: Option<State>)
        requires
            self.modest(state.time_remaining),
            state.within(),
        ensures
            next == self.with_geode_robot(*state),
            next matches Some(n) ==> n.within() && n.time_remaining < state.time_remaining
                && n.geode_room() <= state.geode_room(),
    {
        if state.ore_robots > 0 && state.obsidian_robots > 0 {
            let ore_required = spare(self.geode_ore, state.ore);
            let ore_mins_required = minutes_until(ore_required, state.ore_robots);
            let obsidian_required = spare(self.geode_obsidian, state.obsidian);
            let obsidian_mins_required = minutes_until(obsidian_required, state.obsidian_robots);
            let mins_required = if ore_mins_required >= obsidian_mins_required {
                ore_mins_required
            } else {
                obsidian_mins_required
            };
            if mins_required < state.time_remaining {
                proof {
                    lemma_more_minutes(
                        state.ore_robots as int,
                        ore_mins_required as int,
                        mins_required as int,
                    );
                    lemma_more_minutes(
                        state.obsidian_robots as int,
                        obsidian_mins_required as int,
                        mins_required as int,
                    );
                    lemma_wait_and_spend(
                        *state,
                        mins_required as int,
                        self.geode_ore as int,
                        0,
                        self.geode_obsidian as int,
                    );
                }
                return Some(
                    state.idle_for(mins_required).build_geode_robot(
                        self.geode_ore,
                        self.geode_obsidian,
                    ),
                );
            }
        }
        None
    }

    /// The most geodes that one of the states of the search from `state`
    /// has in stock.
    pub fn best_from(&self, state: State) -> (most: usize)
        requires
            self.modest(state.time_remaining),
            state.within(),
        ensures
            most == self.best(state),
            most <= state.geode_room(),
        decreases state.time_remaining,
    {
        let mut max_geodes = state.geode;
        proof {
            assert(0 <= state.geode_robots * state.time_remaining && 0 <= state.time_remaining
                * state.time_remaining) by (nonlinear_arith);
        }
        if state.time_remaining == 0 {
            return max_geodes;
        }
        let mut can_build = false;
        let with_ore = self.next_with_ore_robot(&state);
        if let Some(next_state) = with_ore {
            proof {
                self.lemma_modest(state.time_remaining, next_state.time_remaining);
            }
            let most = self.best_from(next_state);
            if most > max_geodes {
                max_geodes = most;
            }
            can_build = true;
        }
        let with_clay = self.next_with_clay_robot(&state);
        if let Some(next_state) = with_clay {
            proof {
                self.lemma_modest(state.time_remaining, next_state.time_remaining);
            }
            let most = self.best_from(next_state);
            if most > max_geodes {
                max_geodes = most;
            }
            can_build = true;
        }
        let with_obsidian = self.next_with_obsidian_robot(&state);
        if let Some(next_state) = with_obsidian {
            proof {
                self.lemma_modest(state.time_remaining, next_state.time_remaining);
            }
            let most = self.best_from(next_state);
            if most > max_geodes {
                max_geodes = most;
            }
            can_build = true;
        }
        let with_geode = self.next_with_geode_robot(&state);
        if let Some(next_state) = with_geode {
            proof {
                self.lemma_modest(state.time_remaining, next_state.time_remaining);
            }
            let most = self.best_from(next_state);
            if most > max_geodes {
                max_geodes = most;
            }
            can_build = true;
        }
        if !can_build {
            proof {
                let last = state.time_remaining - 1;
                lemma_room(state.ore, state.ore_robots, state.time_remaining, last);
                lemma_room(state.clay, state.clay_robots, state.time_remaining, last);
                lemma_room(state.obsidian, state.obsidian_robots, state.time_remaining, last);
                lemma_room(state.geode, state.geode_robots, state.time_remaining, last);
            }
            let next_state = state.idle_for(state.time_remaining);
            if next_state.geode > max_geodes {
                max_geodes = next_state.geode;
            }
        }
        max_geodes
    }

    /// The most geodes that can be in stock at some moment of a search of
    /// `time_limit` minutes.
    pub fn maximal_geodes(&self, time_limit: usize) -> (most: usize)
        requires
            self.modest(time_limit),
            State::spec_default(time_limit).within(),
        ensures
            most == self.best(State::spec_default(time_limit)),
            most <= time_limit * time_limit,
    {
        self.best_from(State::default(time_limit))
    }

    /// The most geodes times the number of the blueprint.
    pub fn quality_level(&self, time_limit: usize) -> (quality: usize)
        requires
            self.modest(time_limit),
            State::spec_default(time_limit).within(),
            time_limit * time_limit * self.id <= usize::MAX,
        ensures
            quality == self.best(State::spec_default(time_limit)) * self.id,
    {
        let most = self.maximal_geodes(time_limit);
        assert(0 <= most * self.id <= time_limit * time_limit * self.id) by (nonlinear_arith)
            requires
                0 <= most <= time_limit * time_limit,
                0 <= self.id,
        ;
        most * self.id
    }
}

/// What is missing of `cost` when `stock` is at hand.
pub fn spare(cost: usize, stock: usize) -> (left: usize)
    ensures
        left == missing(cost as int, stock as int),
{
    if cost > stock {
        cost - stock
    } else {
        0
    }
}

/// The difference of two numbers comes in `time` minutes to no more, up
/// or down, than the greater of what the two come to.
pub proof fn lemma_stockpile(plus: int, minus: int, time: int)
    requires
        0 <= plus,
        0 <= minus,
        0 <= time,
        plus * time <= isize::MAX,
        minus * time <= isize::MAX,
    ensures
        -isize::MAX <= (plus - minus) * time <= isize::MAX,
{
    assert((plus - minus) * time == plus * time - minus * time) by (nonlinear_arith);
    assert(0 <= plus * time && 0 <= minus * time) by (nonlinear_arith)
        requires
            0 <= plus,
            0 <= minus,
            0 <= time,
    ;
}

/// Robots collect no less in more minutes.
pub proof fn lemma_more_minutes(robots: int, fewer: int, more: int)
    requires
        0 <= robots,
        0 <= fewer <= more,
    ensures
        robots * fewer <= robots * more,
{
    assert(robots * fewer <= robots * more) by (nonlinear_arith)
        requires
            0 <= robots,
            0 <= fewer <= more,
    ;
}

/// The form of a line that tells of a blueprint.
pub const BLUEPRINT_PATTERN: &'static str =
    "Blueprint (?P<id>\\d+): Each ore robot costs (?P<ore_ore>\\d+) ore. Each clay robot costs (?P<clay_ore>\\d+) ore. Each obsidian robot costs (?P<obsidian_ore>\\d+) ore and (?P<obsidian_clay>\\d+) clay. Each geode robot costs (?P<geode_ore>\\d+) ore and (?P<geode_obsidian>\\d+) obsidian.";

/// The greatest of four numbers.
pub open spec fn greatest(a: usize, b: usize, c: usize, d: usize) -> usize {
    let ab = if a >= b {
        a
    } else {
        b
    };
    let cd = if c >= d {
        c
    } else {
        d
    };
    if ab >= cd {
        ab
    } else {
        cd
    }
}

/// The blueprint with the given number and costs.
pub open spec fn blueprint_with(
    id: usize,
    ore_ore: usize,
    clay_ore: usize,
    obsidian_ore: usize,
    obsidian_clay: usize,
    geode_ore: usize,
    geode_obsidian: usize,
) -> Blueprint {
    Blueprint {
        id,
        ore_ore,
        clay_ore,
        obsidian_ore,
        obsidian_clay,
        geode_ore,
        geode_obsidian,
        max_ore: greatest(ore_ore, clay_ore, obsidian_ore, geode_ore),
    }
}

/// The blueprint that the groups of a line stand for: seven numerals, the
/// number of the blueprint and the six costs.
pub open spec fn blueprint_of_groups(groups: Option<Seq<Seq<char>>>) -> Option<Blueprint> {
    match groups {
        Some(g) => if g.len() == 7 && (forall|i: int| 0 <= i < 7 ==> nat_of_text(#[trigger] g[i]) is Some) {
            Some(
                blueprint_with(
                    nat_of_text(g[0])->0,
                    nat_of_text(g[1])->0,
                    nat_of_text(g[2])->0,
                    nat_of_text(g[3])->0,
                    nat_of_text(g[4])->0,
                    nat_of_text(g[5])->0,
                    nat_of_text(g[6])->0,
                ),
            )
        } else {
            None
        },
        None => None,
    }
}

/// The blueprint that the groups of a line stand for.
pub fn blueprint_from_groups(groups: &Vec<String>) -> (blueprint: Option<Blueprint>)
    ensures
        blueprint == blueprint_of_groups(Some(texts_of(groups@))),
{
    if groups.len() != 7 {
        return None;
    }
    let ghost g = texts_of(groups@);
    let mut numbers: Vec<usize> = Vec::new();
    let mut i: usize = 0;
    while i < 7
        invariant
            i <= 7,
            groups@.len() == 7,
            g == texts_of(groups@),
            numbers@.len() == i,
            forall|k: int| 0 <= k < i ==> nat_of_text(#[trigger] g[k]) == Some(numbers@[k]),
        decreases 7 - i,
    {
        match parse_usize_text(groups[i].as_str()) {
            Some(n) => {
                numbers.push(n);
            },
            None => {
                assert(nat_of_text(g[i as int]) is None);
                return None;
            },
        }
        i += 1;
    }
    let ore_ore = numbers[1];
    let clay_ore = numbers[2];
    let obsidian_ore = numbers[3];
    let geode_ore = numbers[5];
    let first = if ore_ore >= clay_ore {
        ore_ore
    } else {
        clay_ore
    };
    let second = if obsidian_ore >= geode_ore {
        obsidian_ore
    } else {
        geode_ore
    };
    let max_ore = if first >= second {
        first
    } else {
        second
    };
    Some(
        Blueprint {
            id: numbers[0],
            ore_ore,
            clay_ore,
            obsidian_ore,
            obsidian_clay: numbers[4],
            geode_ore,
            geode_obsidian: numbers[6],
            max_ore,
        },
    )
}

/// The blueprint that a line tells of, if the line has the form of
/// `BLUEPRINT_PATTERN`.
pub fn parse_blueprint_line(line: &str) -> (blueprint: Option<Blueprint>)
    ensures
        blueprint == blueprint_of_groups(taken(found_in(BLUEPRINT_PATTERN@, line@))),
{
    match find_texts(BLUEPRINT_PATTERN, line) {
        Some(groups) => blueprint_from_groups(&groups),
        None => None,
    }
}

} // verus!
