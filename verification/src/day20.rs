//! Mixing a ring of numbers: each number in turn is taken out and put back
//! as many places further on as it says.

use vstd::prelude::*;
use vstd::arithmetic::div_mod::{
    lemma_fundamental_div_mod, lemma_fundamental_div_mod_converse, lemma_mod_bound,
};

verus! {

/// A number of the ring and the place at which it stood at the start.
pub type Placed = (isize, usize);

/// The ring as pairs of mathematical integers: the number, and the place at
/// which it stood at the start.
pub open spec fn ring(placed: Seq<Placed>) -> Seq<(int, int)> {
    Seq::new(placed.len(), |k: int| (placed[k].0 as int, placed[k].1 as int))
}

/// The ring at the start: each number times `key`, with its place.
pub open spec fn tagged(numbers: Seq<isize>, key: int) -> Seq<(int, int)> {
    Seq::new(numbers.len(), |k: int| (numbers[k] * key, k))
}

/// Whether each number times `key` fits the machine's integers.
pub open spec fn keyed_fit(numbers: Seq<isize>, key: int) -> bool {
    forall|k: int| 0 <= k < numbers.len() ==> isize::MIN <= #[trigger] numbers[k] * key <= isize::MAX
}

/// The first place at or after `from` whose number stood at `origin` at the
/// start, or the length of the ring if there is none.
pub open spec fn slot_from(list: Seq<(int, int)>, origin: int, from: int) -> int
    decreases list.len() - from,
{
    if from >= list.len() {
        list.len() as int
    } else if list[from].1 == origin {
        from
    } else {
        slot_from(list, origin, from + 1)
    }
}

/// The ring after the number that stood at `origin` has been taken out and
/// put back: from its place it goes on by its own value, counted around the
/// ring of the others. A ring without such a number, or of fewer than two
/// numbers, stays as it is.
pub open spec fn moved(list: Seq<(int, int)>, origin: int) -> Seq<(int, int)> {
    let at = slot_from(list, origin, 0);
    if at >= list.len() || list.len() < 2 {
        list
    } else {
        list.remove(at).insert((at + list[at].0) % (list.len() - 1), list[at])
    }
}

/// The ring after the numbers that stood at the first `count` places have
/// been moved, in that order.
pub open spec fn moved_upto(list: Seq<(int, int)>, count: nat) -> Seq<(int, int)>
    decreases count,
{
    if count == 0 {
        list
    } else {
        moved(moved_upto(list, (count - 1) as nat), count - 1)
    }
}

/// The ring after `rounds` rounds, in each of which every number is moved
/// once, in the order of the start.
pub open spec fn mixed(list: Seq<(int, int)>, rounds: nat) -> Seq<(int, int)>
    decreases rounds,
{
    if rounds == 0 {
        list
    } else {
        let before = mixed(list, (rounds - 1) as nat);
        moved_upto(before, before.len())
    }
}

/// The first place at or after `from` that holds the number 0, or the
/// length of the ring if there is none.
pub open spec fn zero_from(list: Seq<(int, int)>, from: int) -> int
    decreases list.len() - from,
{
    if from >= list.len() {
        list.len() as int
    } else if list[from].0 == 0 {
        from
    } else {
        zero_from(list, from + 1)
    }
}

/// The sum of the numbers that stand 1000, 2000 and 3000 places after the
/// first 0, counted around the ring.
pub open spec fn grove_sum(list: Seq<(int, int)>) -> int {
    let zero = zero_from(list, 0);
    list[(zero + 1000) % (list.len() as int)].0 + list[(zero + 2000) % (list.len() as int)].0
        + list[(zero + 3000) % (list.len() as int)].0
}

/// The place `by` places after `at`, counted around a ring of `len` places.
pub fn wrapped(at: usize, by: isize, len: usize) -> (place: usize)
    requires
        len > 0,
    ensures
        place == (at + by) % (len as int),
        place < len,
{
    let sum: i128 = at as i128 + by as i128;
    proof {
        lemma_mod_bound(at + by, len as int);
    }
    if sum >= 0 {
        (sum as u128 % len as u128) as usize
    } else {
        let back: u128 = (-sum) as u128;
        let over: u128 = back % len as u128;
        let ghost q = (back as int) / (len as int);
        proof {
            lemma_fundamental_div_mod(back as int, len as int);
            lemma_mod_bound(back as int, len as int);
        }
        if over == 0 {
            proof {
                assert(sum == (-q) * len + 0) by (nonlinear_arith)
                    requires
                        -sum == len * q + 0,
                ;
                lemma_fundamental_div_mod_converse(sum as int, len as int, -q, 0);
            }
            0
        } else {
            proof {
                assert(sum == (-q - 1) * len + (len - over)) by (nonlinear_arith)
                    requires
                        -sum == len * q + over,
                ;
                lemma_fundamental_div_mod_converse(sum as int, len as int, -q - 1, len - over);
            }
            (len as u128 - over) as usize
        }
    }
}

/// The first place whose number stood at `origin` at the start, or the
/// length of the ring if there is none.
pub fn find_slot(placed: &Vec<Placed>, origin: usize) -> (at: usize)
    ensures
        at == slot_from(ring(placed@), origin as int, 0),
        at <= placed@.len(),
{
    let mut at: usize = 0;
    while at < placed.len() && placed[at].1 != origin
        invariant
            at <= placed@.len(),
            slot_from(ring(placed@), origin as int, 0) == slot_from(
                ring(placed@),
                origin as int,
                at as int,
            ),
        decreases placed@.len() - at,
    {
        at += 1;
    }
    at
}

/// Takes the number that stood at `origin` out of the ring and puts it back
/// as many places further on as it says.
pub fn move_number(placed: &mut Vec<Placed>, origin: usize)
    ensures
        ring(final(placed)@) == moved(ring(old(placed)@), origin as int),
        final(placed)@.len() == old(placed)@.len(),
{
    let at = find_slot(placed, origin);
    if at >= placed.len() || placed.len() < 2 {
        return ;
    }
    let ghost before = ring(placed@);
    let item = placed.remove(at);
    assert(ring(placed@) =~= before.remove(at as int));
    let new_pos = wrapped(at, item.0, placed.len());
    placed.insert(new_pos, item);
    assert(ring(placed@) =~= before.remove(at as int).insert(new_pos as int, before[at as int]));
}

/// The first place that holds the number 0, or the length of the ring if
/// there is none.
pub fn find_zero(placed: &Vec<Placed>) -> (at: usize)
    ensures
        at == zero_from(ring(placed@), 0),
        at <= placed@.len(),
{
    let mut at: usize = 0;
    while at < placed.len() && placed[at].0 != 0
        invariant
            at <= placed@.len(),
            zero_from(ring(placed@), 0) == zero_from(ring(placed@), at as int),
        decreases placed@.len() - at,
    {
        at += 1;
    }
    at
}

/// The numbers times `key`, each with its place; `None` if a product does
/// not fit.
pub fn tag(numbers: &Vec<isize>, key: isize) -> (placed: Option<Vec<Placed>>)
    ensures
        placed is Some == keyed_fit(numbers@, key as int),
        placed matches Some(t) ==> ring(t@) == tagged(numbers@, key as int),
{
    let mut placed: Vec<Placed> = Vec::new();
    let mut i: usize = 0;
    while i < numbers.len()
        invariant
            i <= numbers@.len(),
            placed@.len() == i,
            forall|k: int|
                0 <= k < i ==> (#[trigger] placed@[k]).0 == numbers@[k] * key && placed@[k].1
                    == k,
            forall|k: int|
                0 <= k < i ==> isize::MIN <= #[trigger] numbers@[k] * key <= isize::MAX,
        decreases numbers@.len() - i,
    {
        match numbers[i].checked_mul(key) {
            Some(product) => {
                placed.push((product, i));
            },
            None => {
                assert(!(isize::MIN <= numbers@[i as int] * key <= isize::MAX));
                return None;
            },
        }
        i += 1;
    }
    assert(ring(placed@) =~= tagged(numbers@, key as int));
    Some(placed)
}

/// Mixes the ring for `rounds` rounds.
pub fn mix(placed: &mut Vec<Placed>, rounds: usize)
    ensures
        ring(final(placed)@) == mixed(ring(old(placed)@), rounds as nat),
        final(placed)@.len() == old(placed)@.len(),
{
    let ghost start = ring(placed@);
    let len = placed.len();
    let mut round: usize = 0;
    while round < rounds
        invariant
            round <= rounds,
            start == ring(old(placed)@),
            placed@.len() == len,
            len == start.len(),
            ring(placed@) == mixed(start, round as nat),
        decreases rounds - round,
    {
        let ghost before = ring(placed@);
        let mut to_move: usize = 0;
        while to_move < len
            invariant
                to_move <= len,
                placed@.len() == len,
                before.len() == len,
                ring(placed@) == moved_upto(before, to_move as nat),
            decreases len - to_move,
        {
            move_number(placed, to_move);
            to_move += 1;
        }
        round += 1;
    }
}

/// The sum of the numbers 1000, 2000 and 3000 places after the 0 in the
/// ring that comes of the numbers, each times `key`, by `rounds` rounds of
/// mixing; `None` if there are fewer than two numbers, if a product or the
/// sum does not fit, or if the ring holds no 0.
pub fn grove_coordinates(numbers: &Vec<isize>, key: isize, rounds: usize) -> (sum: Option<isize>)
    ensures
        sum == if numbers@.len() >= 2 && keyed_fit(numbers@, key as int) && zero_from(
            mixed(tagged(numbers@, key as int), rounds as nat),
            0,
        ) < numbers@.len() && isize::MIN <= grove_sum(
            mixed(tagged(numbers@, key as int), rounds as nat),
        ) <= isize::MAX {
            Some(grove_sum(mixed(tagged(numbers@, key as int), rounds as nat)) as isize)
        } else {
            None
        },
{
    if numbers.len() < 2 {
        return None;
    }
    let mut placed = match tag(numbers, key) {
        Some(placed) => placed,
        None => {
            return None;
        },
    };
    assert(ring(placed@).len() == placed@.len());
    mix(&mut placed, rounds);
    let len = placed.len();
    let ghost list = ring(placed@);
    assert(list.len() == len && len == numbers@.len());
    let zero_pos = find_zero(&placed);
    if zero_pos >= len {
        return None;
    }
    let one = wrapped(zero_pos, 1000, len);
    let two = wrapped(zero_pos, 2000, len);
    let three = wrapped(zero_pos, 3000, len);
    assert(list[one as int].0 == placed@[one as int].0);
    assert(list[two as int].0 == placed@[two as int].0);
    assert(list[three as int].0 == placed@[three as int].0);
    let total: i128 = placed[one].0 as i128 + placed[two].0 as i128 + placed[three].0 as i128;
    if total < isize::MIN as i128 || total > isize::MAX as i128 {
        None
    } else {
        Some(total as isize)
    }
}

} // verus!
