//! Sets of valves kept as the bits of a word.

use vstd::prelude::*;

pub mod paths;
pub mod scan;
pub mod search;
pub mod walk;

verus! {

/// Whether bit number `i` of the word is set.
pub open spec fn bit_is_set(word: u64, i: int) -> bool {
    0 <= i < 64 && (word & (1u64 << (i as u64))) != 0
}

/// Setting bit `i` sets that bit and leaves the others.
pub proof fn lemma_set_bit(word: u64, i: u64, j: u64)
    requires
        i < 64,
        j < 64,
    ensures
        bit_is_set(word | (1u64 << i), j as int) == (bit_is_set(word, j as int) || i == j),
{
    assert(((word | (1u64 << i)) & (1u64 << j)) != 0 <==> ((word & (1u64 << j)) != 0 || i == j))
        by (bit_vector)
        requires
            i < 64,
            j < 64,
    ;
}

/// No bit of the empty word is set.
pub proof fn lemma_no_bit(j: u64)
    requires
        j < 64,
    ensures
        !bit_is_set(0, j as int),
{
    assert((0u64 & (1u64 << j)) == 0) by (bit_vector);
}

/// Two words whose conjunction is empty share no set bit.
pub proof fn lemma_disjoint(a: u64, b: u64)
    requires
        a & b == 0,
    ensures
        forall|j: u64| j < 64 ==> !(#[trigger] bit_is_set(a, j as int) && bit_is_set(b, j as int)),
{
    assert forall|j: u64| j < 64 implies !(#[trigger] bit_is_set(a, j as int) && bit_is_set(
        b,
        j as int,
    )) by {
        assert(a & b == 0 ==> !((a & (1u64 << j)) != 0 && (b & (1u64 << j)) != 0)) by (bit_vector);
    }
}

/// Whether the valve with the given index is among the open ones.
pub fn is_open(open_valves: u64, valve_index: usize) -> (yes: bool)
    requires
        valve_index < 64,
    ensures
        yes == bit_is_set(open_valves, valve_index as int),
{
    open_valves & (1u64 << (valve_index as u64)) > 0
}

/// The open valves with the given one added.
pub fn open(open_valves: u64, valve_index: usize) -> (now: u64)
    requires
        valve_index < 64,
    ensures
        forall|j: u64| j < 64 ==> #[trigger] bit_is_set(now, j as int) == (bit_is_set(
            open_valves,
            j as int,
        ) || j == valve_index),
{
    let now = open_valves | (1u64 << (valve_index as u64));
    proof {
        assert forall|j: u64| j < 64 implies #[trigger] bit_is_set(now, j as int) == (bit_is_set(
            open_valves,
            j as int,
        ) || j == valve_index) by {
            lemma_set_bit(open_valves, valve_index as u64, j);
        }
    }
    now
}

/// A set of valves, one bit for each of up to 64 valves.
#[derive(Debug, Clone, Copy, PartialEq, Eq, Hash)]
pub struct BitValves(pub u64);

impl BitValves {
    /// Whether the valve with the given index is in the set.
    pub open spec fn has(&self, valve_index: int) -> bool {
        bit_is_set(self.0, valve_index)
    }

    pub fn new() -> (valves: BitValves)
        ensures
            forall|j: u64| j < 64 ==> !#[trigger] valves.has(j as int),
    {
        proof {
            assert forall|j: u64| j < 64 implies !#[trigger] bit_is_set(0, j as int) by {
                lemma_no_bit(j);
            }
        }
        BitValves(0)
    }

    pub fn is_open(&self, valve_index: usize) -> (yes: bool)
        requires
            valve_index < 64,
        ensures
            yes == self.has(valve_index as int),
    {
        self.0 & (1u64 << (valve_index as u64)) > 0
    }

    pub fn open(&self, valve_index: usize) -> (now: BitValves)
        requires
            valve_index < 64,
        ensures
            forall|j: u64| j < 64 ==> #[trigger] now.has(j as int) == (self.has(j as int) || j
                == valve_index),
    {
        BitValves(self::open(self.0, valve_index))
    }

    pub fn disjoint_with(&self, other: &Self) -> (yes: bool)
        ensures
            yes == (self.0 & other.0 == 0),
            yes ==> forall|j: u64| j < 64 ==> !(#[trigger] self.has(j as int) && other.has(
                j as int,
            )),
    {
        proof {
            if self.0 & other.0 == 0 {
                lemma_disjoint(self.0, other.0);
            }
        }
        self.0 & other.0 == 0
    }
}

/// A valve: how much pressure it releases a minute once it is open, and
/// the names of the valves that tunnels lead to.
#[derive(Debug)]
pub struct Valve {
    pub rate: usize,
    pub neighbours: Vec<String>,
}

/// The indexes of the list are in ascending order.
pub open spec fn ascending(indexes: Seq<usize>) -> bool {
    forall|a: int, b: int| 0 <= a < b < indexes.len() ==> indexes[a] < indexes[b]
}

/// The indexes of the valves that release any pressure, in ascending
/// order.
pub fn usable_valve_indexes(valves: &Vec<Valve>) -> (usable: Vec<usize>)
    ensures
        ascending(usable@),
        forall|i: usize| #[trigger] usable@.contains(i) <==> i < valves@.len() && valves@[i as int].rate > 0,
{
    let mut usable: Vec<usize> = Vec::new();
    let mut i: usize = 0;
    while i < valves.len()
        invariant
            i <= valves@.len(),
            ascending(usable@),
            forall|k: int| 0 <= k < usable@.len() ==> usable@[k] < i,
            forall|k: usize| #[trigger] usable@.contains(k) <==> k < i && valves@[k as int].rate > 0,
        decreases valves@.len() - i,
    {
        if valves[i].rate > 0 {
            let ghost before = usable@;
            usable.push(i);
            proof {
                assert forall|k: usize| #[trigger]
                    usable@.contains(k) <==> k < i + 1 && valves@[k as int].rate > 0 by {
                    if k == i {
                        assert(usable@[usable@.len() - 1] == k);
                    } else {
                        if before.contains(k) {
                            let at = choose|at: int| 0 <= at < before.len() && before[at] == k;
                            assert(usable@[at] == k);
                        }
                        if usable@.contains(k) {
                            let at = choose|at: int| 0 <= at < usable@.len() && usable@[at] == k;
                            assert(before[at] == k);
                        }
                    }
                }
            }
        }
        i += 1;
    }
    usable
}

} // verus!
