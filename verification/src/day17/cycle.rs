//! The height after very many rocks: simulate until a state comes back,
//! then add up whole periods.

use std::collections::HashMap;
use vstd::prelude::*;
use vstd::pervasive::unreached;
use vstd::arithmetic::div_mod::{lemma_fundamental_div_mod, lemma_mod_bound};
use vstd::arithmetic::mul::lemma_mul_is_commutative;
use crate::day17::chamber::Chamber;
use crate::day17::model::{LEFT, RIGHT, grid_of, run, run_jets, tower_height, valid_jets};
use crate::day17::seal::{
    find_seal_row, run_trimmed, seal_row, trimmed, trimmed_height, trimmed_jets,
};
use crate::day17::laws::{
    lemma_extrapolate, lemma_jets_can_be_counted, lemma_run_bounds, lemma_run_monotone,
    lemma_trimming_keeps_height, same_state,
};

verus! {

broadcast use vstd::std_specs::hash::group_hash_axioms;

/// What was seen before a drop: the number of the drop and the kept rows.
pub struct Sighting {
    pub rock_index: u64,
    pub rows: Vec<[bool; 7]>,
}

/// The key under which a state is remembered: the jet position and the
/// place of the next rock in the cycle of five shapes.
pub open spec fn state_key(rock_index: int, jet: int) -> int {
    jet * 5 + rock_index % 5
}

/// The key under which a state is remembered.
pub fn key_of(rock_index: u64, jet_index: usize) -> (key: u128)
    ensures
        key == state_key(rock_index as int, jet_index as int),
{
    (jet_index as u128) * 5 + (rock_index % 5) as u128
}

/// A copy of the rows.
pub fn copy_rows(rows: &Vec<[bool; 7]>) -> (copy: Vec<[bool; 7]>)
    ensures
        copy@ == rows@,
{
    let mut copy: Vec<[bool; 7]> = Vec::new();
    let mut r: usize = 0;
    while r < rows.len()
        invariant
            r <= rows@.len(),
            copy@ == rows@.subrange(0, r as int),
        decreases rows@.len() - r,
    {
        copy.push(rows[r]);
        assert(copy@ =~= rows@.subrange(0, r + 1));
        r += 1;
    }
    assert(copy@ =~= rows@);
    copy
}

/// Whether two vectors of rows hold the same cells.
pub fn same_rows(a: &Vec<[bool; 7]>, b: &Vec<[bool; 7]>) -> (same: bool)
    ensures
        same == (grid_of(a@) == grid_of(b@)),
{
    if a.len() != b.len() {
        assert(grid_of(a@).len() != grid_of(b@).len());
        return false;
    }
    let mut r: usize = 0;
    while r < a.len()
        invariant
            r <= a@.len(),
            a@.len() == b@.len(),
            forall|k: int| 0 <= k < r ==> #[trigger] grid_of(a@)[k] == grid_of(b@)[k],
        decreases a@.len() - r,
    {
        let mut c: usize = 0;
        while c < 7
            invariant
                c <= 7,
                r < a@.len(),
                a@.len() == b@.len(),
                forall|i: int| 0 <= i < c ==> #[trigger] a@[r as int]@[i] == b@[r as int]@[i],
            decreases 7 - c,
        {
            if a[r][c] != b[r][c] {
                assert(grid_of(a@)[r as int][c as int] != grid_of(b@)[r as int][c as int]);
                return false;
            }
            c += 1;
        }
        assert(grid_of(a@)[r as int] =~= grid_of(b@)[r as int]);
        r += 1;
    }
    assert(grid_of(a@) =~= grid_of(b@));
    true
}

/// The key of the state before drop `q`.
pub open spec fn key_at(g: Seq<Seq<bool>>, j: int, jets: Seq<u8>, q: nat) -> int {
    state_key(q as int, run_trimmed(g, j, jets, 0, q).1)
}

/// Whether the state before drop `i` is the state before drop `p`, the
/// latest earlier drop with the same key.
pub open spec fn repeats(g: Seq<Seq<bool>>, j: int, jets: Seq<u8>, p: nat, i: nat) -> bool {
    &&& p < i
    &&& same_state(g, j, jets, p, i)
    &&& forall|q: nat| p < q < i ==> #[trigger] key_at(g, j, jets, q) != key_at(g, j, jets, i)
}

/// Whether a repeat is found before drop `i`.
pub open spec fn detected(g: Seq<Seq<bool>>, j: int, jets: Seq<u8>, i: nat) -> bool {
    exists|p: nat| #[trigger] repeats(g, j, jets, p, i)
}

/// Whether a simulation that is to drop `rounds` rocks stops before drop
/// `k`: a repeat is found there and before no earlier drop, or no repeat
/// is found before any drop and `k` is `rounds`.
pub open spec fn stops_at(g: Seq<Seq<bool>>, j: int, jets: Seq<u8>, rounds: nat, k: nat) -> bool {
    &&& k <= rounds
    &&& k == rounds || detected(g, j, jets, k)
    &&& forall|i: nat| i < k ==> !#[trigger] detected(g, j, jets, i)
}

/// Whether the count of the jets used, which stands at `count`, can grow
/// by those of drop `m`.
pub open spec fn room_at(count: int, g: Seq<Seq<bool>>, j: int, jets: Seq<u8>, m: nat) -> bool {
    count + trimmed_jets(g, j, jets, 0, m) + run_trimmed(g, j, jets, 0, m).0.len() + 4
        <= usize::MAX
}

/// Whether the jets used can be counted all through a simulation that is
/// to drop `rounds` rocks: the count can grow by those of every drop
/// before which, as before every earlier drop, no repeat is found.
pub open spec fn counted(count: int, g: Seq<Seq<bool>>, j: int, jets: Seq<u8>, rounds: nat) -> bool {
    forall|m: nat|
        m < rounds && (forall|i: nat| i <= m ==> !#[trigger] detected(g, j, jets, i))
            ==> #[trigger] room_at(count, g, j, jets, m)
}

/// Whether the chamber `after` is what a simulation that is to drop
/// `rounds` rocks leaves of the chamber `before`: the rows kept, the jets
/// counted and the rows discarded up to the drop before which it stops.
pub open spec fn left_by(before: Chamber, after: Chamber, jets: Seq<u8>, rounds: nat) -> bool {
    exists|k: nat|
        stops_at(before.grid(), before.jet_position(jets), jets, rounds, k) && #[trigger] run_trimmed(
            before.grid(),
            before.jet_position(jets),
            jets,
            0,
            k,
        ) == (after.grid(), after.jet_position(jets), after.elided - before.elided)
            && after.jet_index == before.jet_index + trimmed_jets(
            before.grid(),
            before.jet_position(jets),
            jets,
            0,
            k,
        )
}

/// The jets of `rounds` more drops can be counted, whether rows are
/// discarded on the way or not, where the count now and what the tallest
/// grid on the way would take for every drop fit the machine's integers.
pub proof fn lemma_counted(chamber: Chamber, jets: Seq<u8>, rounds: nat)
    requires
        valid_jets(jets),
        chamber.jet_index + rounds * (chamber.rows@.len() + 4 * rounds + 4) <= usize::MAX,
    ensures
        counted(
            chamber.jet_index as int,
            chamber.grid(),
            chamber.jet_position(jets),
            jets,
            rounds,
        ),
        chamber.can_count_drops(jets, rounds as int),
{
    let g = chamber.grid();
    let j = chamber.jet_position(jets);
    lemma_mod_bound(chamber.jet_index as int, jets.len() as int);
    assert forall|m: nat| m < rounds implies #[trigger] room_at(
        chamber.jet_index as int,
        g,
        j,
        jets,
        m,
    ) by {
        lemma_jets_can_be_counted(chamber.jet_index as int, g, j, jets, rounds, m);
    }
    assert forall|m: nat| m < rounds implies chamber.jet_index + #[trigger] run_jets(
        g,
        j,
        jets,
        0,
        m,
    ) + run(g, j, jets, 0, m).0.len() + 4 <= usize::MAX by {
        lemma_jets_can_be_counted(chamber.jet_index as int, g, j, jets, rounds, m);
    }
}

/// The table holds, for every key of a state before one of the first
/// `upto` drops, the latest of those drops and the rows kept before it.
pub open spec fn remembers(
    seen: Map<u128, Sighting>,
    g: Seq<Seq<bool>>,
    j: int,
    jets: Seq<u8>,
    upto: nat,
) -> bool {
    &&& forall|key: u128| #[trigger]
        seen.contains_key(key) ==> {
            &&& seen[key].rock_index < upto
            &&& key == key_at(g, j, jets, seen[key].rock_index as nat)
            &&& grid_of(seen[key].rows@) == run_trimmed(
                g,
                j,
                jets,
                0,
                seen[key].rock_index as nat,
            ).0
            &&& forall|q: nat|
                seen[key].rock_index < q < upto ==> #[trigger] key_at(g, j, jets, q) != key
        }
    &&& forall|q: nat|
        q < upto ==> 0 <= #[trigger] key_at(g, j, jets, q) <= u128::MAX && seen.contains_key(
            key_at(g, j, jets, q) as u128,
        )
}

/// Two states have the same key exactly if the same shape is next and the
/// jet position is the same.
pub proof fn lemma_key_tells(a: int, ja: int, b: int, jb: int)
    ensures
        state_key(a, ja) == state_key(b, jb) <==> a % 5 == b % 5 && ja == jb,
{
}

/// Where the table holds the key of the state before drop `i`, a repeat is
/// found before drop `i` exactly if the rows it holds are the rows kept
/// before drop `i`; where the table does not hold the key, none is found.
pub proof fn lemma_detection(
    seen: Map<u128, Sighting>,
    g: Seq<Seq<bool>>,
    j: int,
    jets: Seq<u8>,
    i: nat,
    key: u128,
)
    requires
        remembers(seen, g, j, jets, i),
        key == key_at(g, j, jets, i),
    ensures
        detected(g, j, jets, i) <==> seen.contains_key(key) && grid_of(seen[key].rows@)
            == run_trimmed(g, j, jets, 0, i).0,
{
    if seen.contains_key(key) && grid_of(seen[key].rows@) == run_trimmed(g, j, jets, 0, i).0 {
        let p = seen[key].rock_index as nat;
        lemma_key_tells(p as int, run_trimmed(g, j, jets, 0, p).1, i as int, run_trimmed(g, j, jets, 0, i).1);
        assert(repeats(g, j, jets, p, i));
    }
    if detected(g, j, jets, i) {
        let p = choose|p: nat| #[trigger] repeats(g, j, jets, p, i);
        lemma_key_tells(p as int, run_trimmed(g, j, jets, 0, p).1, i as int, run_trimmed(g, j, jets, 0, i).1);
        assert(key_at(g, j, jets, p) == key);
        assert(seen.contains_key(key));
        let latest = seen[key].rock_index as nat;
        if p < latest {
            assert(key_at(g, j, jets, latest) != key_at(g, j, jets, i));
        }
        assert(p == latest);
    }
}

/// The table with the state before drop `i` put in holds what is to be
/// held for the first `i + 1` drops.
pub proof fn lemma_remembered(
    seen: Map<u128, Sighting>,
    g: Seq<Seq<bool>>,
    j: int,
    jets: Seq<u8>,
    i: nat,
    key: u128,
    sighting: Sighting,
)
    requires
        remembers(seen, g, j, jets, i),
        key == key_at(g, j, jets, i),
        sighting.rock_index == i,
        grid_of(sighting.rows@) == run_trimmed(g, j, jets, 0, i).0,
    ensures
        remembers(seen.insert(key, sighting), g, j, jets, i + 1),
{
    let now = seen.insert(key, sighting);
    assert forall|k: u128| #[trigger] now.contains_key(k) implies {
        &&& now[k].rock_index < i + 1
        &&& k == key_at(g, j, jets, now[k].rock_index as nat)
        &&& grid_of(now[k].rows@) == run_trimmed(g, j, jets, 0, now[k].rock_index as nat).0
        &&& forall|q: nat| now[k].rock_index < q < i + 1 ==> #[trigger] key_at(g, j, jets, q) != k
    } by {
        if k != key {
            assert(seen.contains_key(k));
        }
    }
    assert forall|q: nat| q < i + 1 implies 0 <= #[trigger] key_at(g, j, jets, q) <= u128::MAX
        && now.contains_key(key_at(g, j, jets, q) as u128) by {
        if q < i {
            assert(seen.contains_key(key_at(g, j, jets, q) as u128));
        }
    }
}

impl Chamber {
    /// Discards the rows below the seal row, which no rock can reach, and
    /// counts them.
    pub fn discard_sealed_rows(&mut self)
        requires
            old(self).wf(),
        ensures
            final(self).grid() == trimmed(old(self).grid()),
            final(self).elided == old(self).elided + seal_row(old(self).grid()),
            final(self).jet_index == old(self).jet_index,
            final(self).spec_height() == old(self).spec_height(),
    {
        let s = find_seal_row(&self.rows);
        let ghost g = self.grid();
        if s > 0 {
            let kept = self.rows.split_off(s);
            self.rows = kept;
            self.elided = self.elided + s as u64;
        }
        assert(self.grid() =~= trimmed(g));
    }

    /// The height of the tower after `rounds` more rocks. Rocks are dropped
    /// one by one, and rows that no rock can reach are discarded, until the
    /// state before a drop is one that was seen before an earlier drop: the
    /// same shape next, the same jet position, the same kept rows. From
    /// there on the tower repeats itself, and the height is that of the
    /// whole periods that fit plus that of the drops left over. `None` if
    /// the jets of a drop cannot be counted any more.
    pub fn try_height_after_rounds(&mut self, jet_dirs: &[u8], rounds: u64) -> (height: Option<u64>)
        requires
            valid_jets(jet_dirs@),
            old(self).has_room(rounds as int),
        ensures
            height is Some == counted(
                old(self).jet_index as int,
                old(self).grid(),
                old(self).jet_position(jet_dirs@),
                jet_dirs@,
                rounds as nat,
            ),
            height matches Some(h) ==> h == old(self).elided + run(
                old(self).grid(),
                old(self).jet_position(jet_dirs@),
                jet_dirs@,
                0,
                rounds as nat,
            ).0.len() && left_by(*old(self), *final(self), jet_dirs@, rounds as nat),
    {
        let ghost g0 = self.grid();
        let ghost j0 = self.jet_position(jet_dirs@);
        let ghost e0 = self.elided as int;
        let ghost c0 = self.jet_index as int;
        let ghost jets = jet_dirs@;
        let len = jet_dirs.len();
        let mut seen: HashMap<u128, Sighting> = HashMap::new();
        let mut heights: Vec<u64> = Vec::new();
        let mut rock_index: u64 = 0;
        proof {
            lemma_mod_bound(c0, jets.len() as int);
        }
        while rock_index < rounds
            invariant
                valid_jets(jets),
                jets == jet_dirs@,
                len == jets.len(),
                rock_index <= rounds,
                old(self).has_room(rounds as int),
                g0 == old(self).grid(),
                e0 == old(self).elided,
                c0 == old(self).jet_index,
                j0 == old(self).jet_position(jet_dirs@),
                0 <= j0 < jets.len(),
                run_trimmed(g0, j0, jets, 0, rock_index as nat) == (
                    self.grid(),
                    self.jet_position(jets),
                    self.elided - e0,
                ),
                self.jet_index == c0 + trimmed_jets(g0, j0, jets, 0, rock_index as nat),
                heights@.len() == rock_index,
                forall|k: int|
                    0 <= k < rock_index ==> #[trigger] heights@[k] == e0 + trimmed_height(
                        g0,
                        j0,
                        jets,
                        k as nat,
                    ),
                remembers(seen@, g0, j0, jets, rock_index as nat),
                forall|i: nat| i < rock_index ==> !#[trigger] detected(g0, j0, jets, i),
                forall|m: nat| m < rock_index ==> #[trigger] room_at(c0, g0, j0, jets, m),
            decreases rounds - rock_index,
        {
            proof {
                lemma_trimming_keeps_height(g0, j0, jets, 0, rock_index as nat);
                lemma_run_bounds(g0, j0, jets, 0, rock_index as nat);
                lemma_mod_bound(self.jet_index as int, len as int);
            }
            let height_before = self.height();
            heights.push(height_before);
            let key = key_of(rock_index, self.jet_index % len);
            let sighting = Sighting { rock_index, rows: copy_rows(&self.rows) };
            proof {
                lemma_detection(seen@, g0, j0, jets, rock_index as nat, key);
                lemma_remembered(seen@, g0, j0, jets, rock_index as nat, key, sighting);
            }
            let earlier = seen.insert(key, sighting);
            if let Some(first) = earlier {
                if same_rows(&first.rows, &self.rows) {
                    let seen_at = first.rock_index;
                    proof {
                        lemma_key_tells(
                            seen_at as int,
                            run_trimmed(g0, j0, jets, 0, seen_at as nat).1,
                            rock_index as int,
                            self.jet_position(jets),
                        );
                    }
                    let period = rock_index - seen_at;
                    let remaining = rounds - seen_at;
                    let num_full_periods = remaining / period;
                    let rounds_in_partial_period = remaining % period;
                    proof {
                        let q = num_full_periods as nat;
                        let r = rounds_in_partial_period as nat;
                        assert(same_state(g0, j0, jets, seen_at as nat, seen_at as nat + period as nat));
                        lemma_extrapolate(g0, j0, jets, seen_at as nat, period as nat, q, r);
                        lemma_fundamental_div_mod(remaining as int, period as int);
                        lemma_mod_bound(remaining as int, period as int);
                        lemma_mul_is_commutative(period as int, q as int);
                        assert(seen_at + q * period + r == rounds);
                        lemma_trimming_keeps_height(g0, j0, jets, 0, rounds as nat);
                        lemma_trimming_keeps_height(g0, j0, jets, 0, seen_at as nat);
                        lemma_trimming_keeps_height(g0, j0, jets, 0, (seen_at + r) as nat);
                        lemma_run_bounds(g0, j0, jets, 0, rounds as nat);
                        lemma_run_monotone(g0, j0, jets, seen_at as nat, rock_index as nat);
                        assert(detected(g0, j0, jets, rock_index as nat));
                        assert(stops_at(g0, j0, jets, rounds as nat, rock_index as nat));
                        assert(counted(c0, g0, j0, jets, rounds as nat)) by {
                            assert forall|m: nat|
                                m < rounds && (forall|i: nat|
                                    i <= m ==> !#[trigger] detected(g0, j0, jets, i)) implies #[trigger] room_at(
                                c0,
                                g0,
                                j0,
                                jets,
                                m,
                            ) by {
                                if m >= rock_index {
                                    assert(!detected(g0, j0, jets, rock_index as nat));
                                }
                            }
                        }
                    }
                    let height_per_period = height_before - heights[seen_at as usize];
                    let height_outside_periods = heights[(seen_at + rounds_in_partial_period) as usize];
                    assert(num_full_periods * height_per_period + height_outside_periods == e0
                        + trimmed_height(g0, j0, jets, rounds as nat));
                    return Some(num_full_periods * height_per_period + height_outside_periods);
                }
            }
            assert(!detected(g0, j0, jets, rock_index as nat));
            if self.jet_index > usize::MAX - self.rows.len() - 4 {
                proof {
                    assert(!room_at(c0, g0, j0, jets, rock_index as nat));
                    assert(forall|i: nat| i <= rock_index ==> !#[trigger] detected(g0, j0, jets, i));
                }
                return None;
            }
            assert(room_at(c0, g0, j0, jets, rock_index as nat));
            self.simulate_single_rock(rock_index, jet_dirs);
            self.discard_sealed_rows();
            rock_index += 1;
        }
        proof {
            lemma_trimming_keeps_height(g0, j0, jets, 0, rounds as nat);
            lemma_run_bounds(g0, j0, jets, 0, rounds as nat);
            assert(stops_at(g0, j0, jets, rounds as nat, rounds as nat));
        }
        Some(self.height())
    }

    /// The height of the tower after `rounds` more rocks, found as
    /// `try_height_after_rounds` finds it, where the jets of every drop can
    /// be counted.
    pub fn calc_height_after_rounds(&mut self, jet_dirs: &[u8], rounds: u64) -> (height: u64)
        requires
            valid_jets(jet_dirs@),
            old(self).has_room(rounds as int),
            counted(
                old(self).jet_index as int,
                old(self).grid(),
                old(self).jet_position(jet_dirs@),
                jet_dirs@,
                rounds as nat,
            ),
        ensures
            height == old(self).elided + run(
                old(self).grid(),
                old(self).jet_position(jet_dirs@),
                jet_dirs@,
                0,
                rounds as nat,
            ).0.len(),
            left_by(*old(self), *final(self), jet_dirs@, rounds as nat),
    {
        match self.try_height_after_rounds(jet_dirs, rounds) {
            Some(height) => height,
            None => unreached(),
        }
    }
}

/// Why a jet sequence, or a number of rounds, cannot be simulated.
#[derive(Debug, Clone, Copy, PartialEq, Eq, Structural)]
pub enum JetError {
    /// The sequence holds no jet.
    Empty,
    /// The byte at `index` is neither a push left nor a push right.
    Unrecognized { index: usize, byte: u8 },
    /// The tower, or the count of the jets used, could outgrow the
    /// machine's integers.
    TooManyRounds,
}

/// The first position that holds no jet, if there is one.
pub open spec fn first_unrecognized(jets: Seq<u8>, index: int) -> bool {
    &&& 0 <= index < jets.len()
    &&& jets[index] != LEFT && jets[index] != RIGHT
    &&& forall|k: int| 0 <= k < index ==> jets[k] == LEFT || jets[k] == RIGHT
}

/// Checks that the bytes are a jet sequence: at least one, and each of them
/// a push left or a push right.
pub fn check_jets(jet_dirs: &[u8]) -> (checked: Result<(), JetError>)
    ensures
        match checked {
            Ok(()) => valid_jets(jet_dirs@),
            Err(JetError::Empty) => jet_dirs@.len() == 0,
            Err(JetError::Unrecognized { index, byte }) => first_unrecognized(
                jet_dirs@,
                index as int,
            ) && byte == jet_dirs@[index as int],
            Err(JetError::TooManyRounds) => false,
        },
{
    if jet_dirs.len() == 0 {
        return Err(JetError::Empty);
    }
    let mut index: usize = 0;
    while index < jet_dirs.len()
        invariant
            index <= jet_dirs@.len(),
            forall|k: int| 0 <= k < index ==> jet_dirs@[k] == LEFT || jet_dirs@[k] == RIGHT,
        decreases jet_dirs@.len() - index,
    {
        let byte = jet_dirs[index];
        if byte != LEFT && byte != RIGHT {
            return Err(JetError::Unrecognized { index, byte });
        }
        index += 1;
    }
    Ok(())
}

/// The most rounds that a tower in an empty shaft is known to have room for.
pub open spec fn max_rounds() -> int {
    (usize::MAX - 4) / 4
}

/// Whether the jets used can be counted all through a simulation that
/// drops `rounds` rocks into an empty shaft.
pub open spec fn countable(jets: Seq<u8>, rounds: nat) -> bool {
    counted(0, Seq::empty(), 0, jets, rounds)
}

/// The height of the tower that `rounds` rocks build in an empty shaft under
/// the given jets, or the reason why it cannot be computed.
pub fn tower_height_after(jet_dirs: &[u8], rounds: u64) -> (height: Result<u64, JetError>)
    ensures
        match height {
            Ok(h) => valid_jets(jet_dirs@) && rounds <= max_rounds() && countable(
                jet_dirs@,
                rounds as nat,
            ) && h == tower_height(jet_dirs@, rounds as nat),
            Err(JetError::Empty) => jet_dirs@.len() == 0,
            Err(JetError::Unrecognized { index, byte }) => first_unrecognized(
                jet_dirs@,
                index as int,
            ) && byte == jet_dirs@[index as int],
            Err(JetError::TooManyRounds) => valid_jets(jet_dirs@) && (rounds > max_rounds()
                || !countable(jet_dirs@, rounds as nat)),
        },
{
    match check_jets(jet_dirs) {
        Err(e) => {
            return Err(e);
        },
        Ok(()) => {},
    }
    let limit: usize = (usize::MAX - 4) / 4;
    if rounds > limit as u64 {
        return Err(JetError::TooManyRounds);
    }
    let mut chamber = Chamber::new();
    proof {
        assert(chamber.grid() =~= Seq::empty());
        assert(chamber.jet_position(jet_dirs@) == 0);
    }
    match chamber.try_height_after_rounds(jet_dirs, rounds) {
        Some(h) => Ok(h),
        None => Err(JetError::TooManyRounds),
    }
}

/// The jets of `rounds` drops into an empty shaft can be counted where
/// what the tallest tower on the way would take for every drop fits the
/// machine's integers: the height is then owed.
pub proof fn lemma_countable(jets: Seq<u8>, rounds: nat)
    requires
        valid_jets(jets),
        rounds * (4 * rounds + 4) <= usize::MAX,
    ensures
        countable(jets, rounds),
{
    let g = Seq::<Seq<bool>>::empty();
    assert forall|m: nat| m < rounds implies #[trigger] room_at(0, g, 0, jets, m) by {
        lemma_jets_can_be_counted(0, g, 0, jets, rounds, m);
    }
}

} // verus!
