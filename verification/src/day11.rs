//! Monkeys that throw items to each other, each according to how much
//! the item worries its owner.

use vstd::prelude::*;

pub mod notes;

verus! {

/// What inspecting an item does to the worry about it.
#[derive(Debug, Clone, Copy, PartialEq, Eq)]
pub enum WorryOp {
    Add(u64),
    Times(u64),
    Square,
}

/// A monkey: the items it holds, by the worry about each, what its
/// inspection does, the divisor it tests by with the monkeys it throws to
/// if the test holds and if not, and how many items it has inspected.
#[derive(Debug)]
pub struct Monkey {
    pub items: Vec<u64>,
    pub op: WorryOp,
    pub test: (u64, usize, usize),
    pub inspections: u64,
}

/// What changes about a monkey: its items and its inspections.
pub struct Hand {
    pub items: Seq<u64>,
    pub inspections: int,
}

/// What the monkeys hold.
pub open spec fn hands(monkeys: Seq<Monkey>) -> Seq<Hand> {
    Seq::new(
        monkeys.len(),
        |i: int| Hand { items: monkeys[i].items@, inspections: monkeys[i].inspections as int },
    )
}

impl WorryOp {
    /// The worry after the inspection; `None` where it does not fit.
    pub open spec fn apply(self, worry: u64) -> Option<u64> {
        match self {
            WorryOp::Add(n) => worry.checked_add(n),
            WorryOp::Times(n) => worry.checked_mul(n),
            WorryOp::Square => worry.checked_mul(worry),
        }
    }

    /// The worry after the inspection.
    pub fn inspect(&self, worry: u64) -> (after: Option<u64>)
        ensures
            after == self.apply(worry),
    {
        match self {
            WorryOp::Add(n) => worry.checked_add(*n),
            WorryOp::Times(n) => worry.checked_mul(*n),
            WorryOp::Square => worry.checked_mul(worry),
        }
    }
}

/// What the worry about an item falls to once the item has been
/// inspected, as the function given for it says.
pub open spec fn eased<F: Fn(u64) -> u64>(f: F) -> spec_fn(u64) -> Option<u64> {
    |worry: u64| Some(choose|after: u64| call_ensures(f, (worry,), after))
}

/// Whether the function can be called with every worry and gives one
/// number for each.
pub open spec fn steady<F: Fn(u64) -> u64>(f: F) -> bool {
    &&& forall|worry: u64| #[trigger] call_requires(f, (worry,))
    &&& forall|worry: u64, a: u64, b: u64|
        #[trigger] call_ensures(f, (worry,), a) && #[trigger] call_ensures(f, (worry,), b) ==> a
            == b
}

/// Where an item goes, and with what worry, when the monkey inspects it;
/// `None` where a number does not fit, no worry is given for it, or the
/// divisor is zero.
pub open spec fn throw(op: WorryOp, test: (u64, usize, usize), relief: spec_fn(u64) -> Option<u64>, worry: u64) -> Option<
    (usize, u64),
> {
    match op.apply(worry) {
        None => None,
        Some(inspected) => match relief(inspected) {
            None => None,
            Some(relieved) => if test.0 == 0 {
                None
            } else if relieved % test.0 == 0 {
                Some((test.1, relieved))
            } else {
                Some((test.2, relieved))
            },
        },
    }
}

/// Where an item goes, and with what worry.
pub fn throw_item<F: Fn(u64) -> u64>(monkey: &Monkey, relief: &F, worry: u64) -> (thrown: Option<
    (usize, u64),
>)
    requires
        steady(*relief),
    ensures
        thrown == throw(monkey.op, monkey.test, eased(*relief), worry),
{
    match monkey.op.inspect(worry) {
        None => None,
        Some(inspected) => {
            let relieved = relief(inspected);
            assert(eased(*relief)(inspected) == Some(relieved));
            if monkey.test.0 == 0 {
                None
            } else if relieved % monkey.test.0 == 0 {
                Some((monkey.test.1, relieved))
            } else {
                Some((monkey.test.2, relieved))
            }
        },
    }
}

/// What the first `k` of the items thrown give: each with the monkey it
/// goes to; `None` where an item cannot be thrown or goes to no monkey.
pub open spec fn thrown(
    op: WorryOp,
    test: (u64, usize, usize),
    relief: spec_fn(u64) -> Option<u64>,
    items: Seq<u64>,
    k: nat,
    count: int,
) -> Option<Seq<(usize, u64)>>
    decreases k,
{
    if k == 0 {
        Some(Seq::empty())
    } else {
        match (thrown(op, test, relief, items, (k - 1) as nat, count), throw(
            op,
            test,
            relief,
            items[k - 1],
        )) {
            (Some(before), Some(item)) => if item.0 < count {
                Some(before.push(item))
            } else {
                None
            },
            _ => None,
        }
    }
}

/// What the monkeys hold once the first `k` of the items passed are in the
/// hands of the monkeys they went to.
pub open spec fn handed(held: Seq<Hand>, passed: Seq<(usize, u64)>, k: nat) -> Seq<Hand>
    decreases k,
{
    if k == 0 {
        held
    } else {
        let before = handed(held, passed, (k - 1) as nat);
        let (to, worry) = passed[k - 1];
        before.update(
            to as int,
            Hand { items: before[to as int].items.push(worry), inspections: before[to as int].inspections },
        )
    }
}

/// What does not change about the monkeys: what each one's inspection
/// does, and its test.
pub open spec fn rules(monkeys: Seq<Monkey>) -> Seq<(WorryOp, (u64, usize, usize))> {
    Seq::new(monkeys.len(), |i: int| (monkeys[i].op, monkeys[i].test))
}

/// What the monkeys hold after the turn of monkey `i`: it has inspected
/// and thrown all its items, in order, and the monkeys they went to hold
/// them at the end of what they held; `None` where a throw fails or the
/// count of inspections does not fit.
pub open spec fn after_turn(
    rules: Seq<(WorryOp, (u64, usize, usize))>,
    relief: spec_fn(u64) -> Option<u64>,
    held: Seq<Hand>,
    i: int,
) -> Option<Seq<Hand>> {
    match thrown(
        rules[i].0,
        rules[i].1,
        relief,
        held[i].items,
        held[i].items.len(),
        held.len() as int,
    ) {
        None => None,
        Some(passed) => if held[i].inspections + held[i].items.len() > u64::MAX {
            None
        } else {
            Some(
                handed(
                    held.update(
                        i,
                        Hand {
                            items: Seq::empty(),
                            inspections: held[i].inspections + held[i].items.len(),
                        },
                    ),
                    passed,
                    passed.len(),
                ),
            )
        },
    }
}

/// What the monkeys hold after the turns of the first `k` monkeys.
pub open spec fn after_turns(
    rules: Seq<(WorryOp, (u64, usize, usize))>,
    relief: spec_fn(u64) -> Option<u64>,
    held: Seq<Hand>,
    k: nat,
) -> Option<Seq<Hand>>
    decreases k,
{
    if k == 0 {
        Some(held)
    } else {
        match after_turns(rules, relief, held, (k - 1) as nat) {
            Some(before) => after_turn(rules, relief, before, k - 1),
            None => None,
        }
    }
}

/// What the monkeys hold after `n` rounds, in each of which every monkey
/// has its turn.
pub open spec fn after_rounds(
    rules: Seq<(WorryOp, (u64, usize, usize))>,
    relief: spec_fn(u64) -> Option<u64>,
    held: Seq<Hand>,
    n: nat,
) -> Option<Seq<Hand>>
    decreases n,
{
    if n == 0 {
        Some(held)
    } else {
        match after_rounds(rules, relief, held, (n - 1) as nat) {
            Some(before) => after_turns(rules, relief, before, rules.len()),
            None => None,
        }
    }
}

/// The two greatest counts of inspections among the first `n` monkeys,
/// the greater first.
pub open spec fn two_greatest(held: Seq<Hand>, n: nat) -> (int, int)
    decreases n,
{
    if n == 0 {
        (0, 0)
    } else {
        let (a, b) = two_greatest(held, (n - 1) as nat);
        let v = held[n - 1].inspections;
        if v >= a {
            (v, a)
        } else if v > b {
            (a, v)
        } else {
            (a, b)
        }
    }
}

/// The product of the two greatest counts of inspections; the count of
/// the only monkey if there is one monkey, and 1 if there is none.
pub open spec fn business(held: Seq<Hand>) -> int {
    if held.len() == 0 {
        1
    } else if held.len() == 1 {
        held[0].inspections
    } else {
        two_greatest(held, held.len()).0 * two_greatest(held, held.len()).1
    }
}

/// Where the items of the monkey go, one by one.
pub fn collect_throws<F: Fn(u64) -> u64>(monkey: &Monkey, relief: &F, count: usize) -> (passed:
    Option<Vec<(usize, u64)>>)
    requires
        steady(*relief),
    ensures
        match passed {
            Some(list) => thrown(
                monkey.op,
                monkey.test,
                eased(*relief),
                monkey.items@,
                monkey.items@.len(),
                count as int,
            ) == Some(list@) && list@.len() == monkey.items@.len() && forall|k: int|
                0 <= k < list@.len() ==> (#[trigger] list@[k]).0 < count,
            None => thrown(
                monkey.op,
                monkey.test,
                eased(*relief),
                monkey.items@,
                monkey.items@.len(),
                count as int,
            ) is None,
        },
{
    let mut passed: Vec<(usize, u64)> = Vec::new();
    let mut k: usize = 0;
    while k < monkey.items.len()
        invariant
            k <= monkey.items@.len(),
            steady(*relief),
            passed@.len() == k,
            thrown(monkey.op, monkey.test, eased(*relief), monkey.items@, k as nat, count as int) == Some(
                passed@,
            ),
            forall|j: int| 0 <= j < passed@.len() ==> (#[trigger] passed@[j]).0 < count,
        decreases monkey.items@.len() - k,
    {
        match throw_item(monkey, relief, monkey.items[k]) {
            None => {
                proof {
                    lemma_thrown_fails(
                        monkey.op,
                        monkey.test,
                        eased(*relief),
                        monkey.items@,
                        (k + 1) as nat,
                        monkey.items@.len(),
                        count as int,
                    );
                }
                return None;
            },
            Some(item) => {
                if item.0 >= count {
                    proof {
                        lemma_thrown_fails(
                            monkey.op,
                            monkey.test,
                            eased(*relief),
                            monkey.items@,
                            (k + 1) as nat,
                            monkey.items@.len(),
                            count as int,
                        );
                    }
                    return None;
                }
                passed.push(item);
            },
        }
        k += 1;
    }
    Some(passed)
}

/// Throws that fail for some items fail for more.
pub proof fn lemma_thrown_fails(
    op: WorryOp,
    test: (u64, usize, usize),
    relief: spec_fn(u64) -> Option<u64>,
    items: Seq<u64>,
    k: nat,
    n: nat,
    count: int,
)
    requires
        k <= n,
        thrown(op, test, relief, items, k, count) is None,
    ensures
        thrown(op, test, relief, items, n, count) is None,
    decreases n - k,
{
    if k < n {
        lemma_thrown_fails(op, test, relief, items, k, (n - 1) as nat, count);
    }
}

/// Puts the items passed into the hands of the monkeys they went to.
pub fn hand_over(table: &mut Vec<Monkey>, passed: &Vec<(usize, u64)>)
    requires
        forall|k: int| 0 <= k < passed@.len() ==> (#[trigger] passed@[k]).0 < old(table)@.len(),
    ensures
        rules(final(table)@) == rules(old(table)@),
        hands(final(table)@) == handed(hands(old(table)@), passed@, passed@.len()),
{
    let ghost before = hands(table@);
    let ghost fixed = rules(table@);
    let mut k: usize = 0;
    while k < passed.len()
        invariant
            k <= passed@.len(),
            table@.len() == old(table)@.len(),
            forall|j: int| 0 <= j < passed@.len() ==> (#[trigger] passed@[j]).0 < table@.len(),
            rules(table@) == fixed,
            hands(table@) == handed(before, passed@, k as nat),
        decreases passed@.len() - k,
    {
        let (to, worry) = passed[k];
        let ghost mid = hands(table@);
        table[to].items.push(worry);
        proof {
            assert(rules(table@) =~= fixed);
            assert(hands(table@) =~= mid.update(
                to as int,
                Hand { items: mid[to as int].items.push(worry), inspections: mid[to as int].inspections },
            ));
        }
        k += 1;
    }
}

/// The turn of monkey `i`; tells whether it went well.
pub fn take_turn<F: Fn(u64) -> u64>(table: &mut Vec<Monkey>, i: usize, relief: &F) -> (done: bool)
    requires
        i < old(table)@.len(),
        steady(*relief),
    ensures
        rules(final(table)@) == rules(old(table)@),
        done ==> after_turn(rules(old(table)@), eased(*relief), hands(old(table)@), i as int) == Some(
            hands(final(table)@),
        ),
        !done ==> after_turn(rules(old(table)@), eased(*relief), hands(old(table)@), i as int) is None,
{
    let ghost before = hands(table@);
    let ghost fixed = rules(table@);
    let count = table.len();
    let passed = match collect_throws(&table[i], relief, count) {
        Some(passed) => passed,
        None => {
            return false;
        },
    };
    let seen = table[i].items.len() as u64;
    let inspections = match table[i].inspections.checked_add(seen) {
        Some(n) => n,
        None => {
            return false;
        },
    };
    table[i].inspections = inspections;
    table[i].items.clear();
    proof {
        assert(rules(table@) =~= fixed);
        assert(hands(table@) =~= before.update(
            i as int,
            Hand {
                items: Seq::empty(),
                inspections: before[i as int].inspections + before[i as int].items.len(),
            },
        ));
    }
    hand_over(table, &passed);
    true
}

/// The product of the two greatest counts of inspections after the given
/// number of rounds; `None` where a throw fails or a number does not fit.
pub fn calc_monkey_business<F: Fn(u64) -> u64>(
    monkeys: Vec<Monkey>,
    rounds: usize,
    worry_reducer: F,
) -> (product: Option<u64>)
    requires
        steady(worry_reducer),
    ensures
        match product {
            Some(p) => after_rounds(
                rules(monkeys@),
                eased(worry_reducer),
                hands(monkeys@),
                rounds as nat,
            ) matches Some(held) && p == business(held),
            None => after_rounds(
                rules(monkeys@),
                eased(worry_reducer),
                hands(monkeys@),
                rounds as nat,
            ) matches Some(held) ==> business(held) > u64::MAX,
        },
{
    let ghost relief = eased(worry_reducer);
    let ghost fixed = rules(monkeys@);
    let ghost start = hands(monkeys@);
    let mut table = monkeys;
    let mut round: usize = 0;
    while round < rounds
        invariant
            round <= rounds,
            rules(table@) == fixed,
            fixed.len() == table@.len(),
            fixed == rules(monkeys@),
            start == hands(monkeys@),
            after_rounds(fixed, relief, start, round as nat) == Some(hands(table@)),
            relief == eased(worry_reducer),
            steady(worry_reducer),
        decreases rounds - round,
    {
        let ghost held = hands(table@);
        let mut i: usize = 0;
        while i < table.len()
            invariant
                i <= table@.len(),
                rules(table@) == fixed,
                fixed.len() == table@.len(),
                after_turns(fixed, relief, held, i as nat) == Some(hands(table@)),
                after_rounds(fixed, relief, start, round as nat) == Some(held),
                round < rounds,
                fixed == rules(monkeys@),
                start == hands(monkeys@),
                relief == eased(worry_reducer),
                steady(worry_reducer),
            decreases table@.len() - i,
        {
            if !take_turn(&mut table, i, &worry_reducer) {
                proof {
                    assert(after_turns(fixed, relief, held, (i + 1) as nat) is None);
                    lemma_turns_fail(fixed, relief, held, (i + 1) as nat, fixed.len());
                    assert(after_rounds(fixed, relief, start, (round + 1) as nat) is None);
                    lemma_rounds_fail(fixed, relief, start, (round + 1) as nat, rounds as nat);
                }
                return None;
            }
            i += 1;
        }
        round += 1;
    }
    let ghost held = hands(table@);
    if table.len() == 0 {
        return Some(1);
    }
    if table.len() == 1 {
        return Some(table[0].inspections);
    }
    let mut most: u64 = 0;
    let mut next: u64 = 0;
    let mut i: usize = 0;
    while i < table.len()
        invariant
            i <= table@.len(),
            held == hands(table@),
            (most as int, next as int) == two_greatest(held, i as nat),
        decreases table@.len() - i,
    {
        let v = table[i].inspections;
        if v >= most {
            next = most;
            most = v;
        } else if v > next {
            next = v;
        }
        i += 1;
    }
    most.checked_mul(next)
}

/// Turns that fail for some monkeys fail for more.
pub proof fn lemma_turns_fail(
    rules: Seq<(WorryOp, (u64, usize, usize))>,
    relief: spec_fn(u64) -> Option<u64>,
    held: Seq<Hand>,
    k: nat,
    n: nat,
)
    requires
        k <= n,
        after_turns(rules, relief, held, k) is None,
    ensures
        after_turns(rules, relief, held, n) is None,
    decreases n - k,
{
    if k < n {
        lemma_turns_fail(rules, relief, held, k, (n - 1) as nat);
    }
}

/// Rounds that fail fail for more rounds.
pub proof fn lemma_rounds_fail(
    rules: Seq<(WorryOp, (u64, usize, usize))>,
    relief: spec_fn(u64) -> Option<u64>,
    held: Seq<Hand>,
    k: nat,
    n: nat,
)
    requires
        k <= n,
        after_rounds(rules, relief, held, k) is None,
    ensures
        after_rounds(rules, relief, held, n) is None,
    decreases n - k,
{
    if k < n {
        lemma_rounds_fail(rules, relief, held, k, (n - 1) as nat);
    }
}

} // verus!
