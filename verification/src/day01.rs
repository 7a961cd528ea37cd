//! Calories carried in groups, one group after another.

use vstd::prelude::*;
use crate::text::{parse_usize, unsigned_value};

verus! {

/// A line of the list: a blank one, which closes a group, or the calories
/// of one item.
#[derive(Debug, Clone, Copy, PartialEq, Eq)]
pub enum Entry {
    Blank,
    Calories(u32),
}

/// The entry that a line stands for: a blank one if it is empty, else the
/// number that it spells, if that fits.
pub open spec fn entry_of(s: Seq<u8>) -> Option<Entry> {
    if s.len() == 0 {
        Some(Entry::Blank)
    } else {
        match unsigned_value(s) {
            Some(v) => if v <= u32::MAX {
                Some(Entry::Calories(v as u32))
            } else {
                None
            },
            None => None,
        }
    }
}

/// The entry that the bytes of a line stand for, if they stand for one.
pub fn read_entry(bytes: &[u8]) -> (entry: Option<Entry>)
    ensures
        entry == entry_of(bytes@),
{
    if bytes.len() == 0 {
        return Some(Entry::Blank);
    }
    match parse_usize(bytes) {
        Some(v) => if v <= 0xffff_ffff {
            Some(Entry::Calories(v as u32))
        } else {
            None
        },
        None => None,
    }
}

/// The calories of the group that is still open after the entries: the sum
/// of those that follow the last blank line.
pub open spec fn open_sum(entries: Seq<Entry>) -> nat
    decreases entries.len(),
{
    if entries.len() == 0 {
        0
    } else {
        match entries.last() {
            Entry::Blank => 0,
            Entry::Calories(c) => open_sum(entries.drop_last()) + c as nat,
        }
    }
}

/// The totals of the groups that a blank line has closed, in their order.
/// A group that no blank line follows is not among them.
pub open spec fn closed_totals(entries: Seq<Entry>) -> Seq<nat>
    decreases entries.len(),
{
    if entries.len() == 0 {
        seq![]
    } else {
        match entries.last() {
            Entry::Blank => closed_totals(entries.drop_last()).push(open_sum(entries.drop_last())),
            Entry::Calories(_) => closed_totals(entries.drop_last()),
        }
    }
}

/// Whether the calories of every group, closed or not, fit.
pub open spec fn sums_fit(entries: Seq<Entry>) -> bool {
    forall|n: int| 0 <= n <= entries.len() ==> #[trigger] open_sum(entries.take(n)) <= u32::MAX
}

/// The totals of the closed groups; `None` if the calories of some group
/// do not fit.
pub fn group_totals(entries: &Vec<Entry>) -> (totals: Option<Vec<u32>>)
    ensures
        totals is Some == sums_fit(entries@),
        totals matches Some(t) ==> t@.len() == closed_totals(entries@).len() && forall|k: int|
            0 <= k < t@.len() ==> #[trigger] t@[k] == closed_totals(entries@)[k],
{
    let mut totals: Vec<u32> = Vec::new();
    let mut cur: u32 = 0;
    let mut i: usize = 0;
    while i < entries.len()
        invariant
            i <= entries@.len(),
            cur == open_sum(entries@.take(i as int)),
            totals@.len() == closed_totals(entries@.take(i as int)).len(),
            forall|k: int|
                0 <= k < totals@.len() ==> #[trigger] totals@[k] == closed_totals(
                    entries@.take(i as int),
                )[k],
            forall|n: int| 0 <= n <= i ==> #[trigger] open_sum(entries@.take(n)) <= u32::MAX,
        decreases entries@.len() - i,
    {
        assert(entries@.take(i + 1).drop_last() =~= entries@.take(i as int));
        match entries[i] {
            Entry::Blank => {
                totals.push(cur);
                cur = 0;
            },
            Entry::Calories(c) => {
                match cur.checked_add(c) {
                    Some(sum) => {
                        cur = sum;
                    },
                    None => {
                        assert(open_sum(entries@.take(i + 1)) > u32::MAX);
                        return None;
                    },
                }
            },
        }
        i += 1;
    }
    assert(entries@.take(i as int) =~= entries@);
    Some(totals)
}

/// Whether `v` is the greatest of the totals, or 0 where there are none.
pub open spec fn is_greatest(totals: Seq<u32>, v: u32) -> bool {
    &&& forall|k: int| 0 <= k < totals.len() ==> #[trigger] totals[k] <= v
    &&& if totals.len() == 0 {
        v == 0
    } else {
        exists|k: int| 0 <= k < totals.len() && #[trigger] totals[k] == v
    }
}

/// The greatest of the totals; 0 where there are none.
pub fn greatest(totals: &Vec<u32>) -> (max: u32)
    ensures
        is_greatest(totals@, max),
{
    let mut max: u32 = 0;
    let mut i: usize = 0;
    while i < totals.len()
        invariant
            i <= totals@.len(),
            is_greatest(totals@.take(i as int), max),
        decreases totals@.len() - i,
    {
        let ghost before = totals@.take(i as int);
        let ghost after = totals@.take(i + 1);
        let ghost old_max = max;
        if totals[i] > max || i == 0 {
            max = totals[i];
        }
        proof {
            assert(after[i as int] == totals@[i as int]);
            assert forall|k: int| 0 <= k < after.len() implies #[trigger] after[k] <= max by {
                if k < i {
                    assert(before[k] == after[k]);
                }
            }
            if max != totals@[i as int] {
                let k = choose|k: int| 0 <= k < before.len() && #[trigger] before[k] == old_max;
                assert(after[k] == max);
            }
        }
        i += 1;
    }
    assert(totals@.take(i as int) =~= totals@);
    max
}

/// The first place that holds a total which none exceeds.
pub open spec fn is_first_greatest(totals: Seq<u32>, at: int) -> bool {
    &&& 0 <= at < totals.len()
    &&& forall|k: int| 0 <= k < totals.len() ==> #[trigger] totals[k] <= totals[at]
    &&& forall|k: int| 0 <= k < at ==> #[trigger] totals[k] < totals[at]
}

/// The place of the greatest total, the first one among equals.
pub open spec fn first_greatest(totals: Seq<u32>) -> int {
    choose|at: int| is_first_greatest(totals, at)
}

/// The sum of the `count` greatest totals, or of all where there are no
/// more: the greatest, and then those of the rest.
pub open spec fn sum_of_greatest(totals: Seq<u32>, count: nat) -> nat
    decreases count,
{
    if count == 0 || totals.len() == 0 {
        0
    } else {
        let at = first_greatest(totals);
        totals[at] as nat + sum_of_greatest(totals.remove(at), (count - 1) as nat)
    }
}

/// The place of the greatest total.
pub fn find_greatest(totals: &Vec<u32>) -> (at: usize)
    requires
        totals@.len() > 0,
    ensures
        is_first_greatest(totals@, at as int),
        at == first_greatest(totals@),
{
    let mut at: usize = 0;
    let mut i: usize = 1;
    while i < totals.len()
        invariant
            1 <= i <= totals@.len(),
            at < i,
            forall|k: int| 0 <= k < i ==> #[trigger] totals@[k] <= totals@[at as int],
            forall|k: int| 0 <= k < at ==> #[trigger] totals@[k] < totals@[at as int],
        decreases totals@.len() - i,
    {
        if totals[i] > totals[at] {
            at = i;
        }
        i += 1;
    }
    proof {
        let other = first_greatest(totals@);
        assert(is_first_greatest(totals@, at as int));
        assert(is_first_greatest(totals@, other));
        if other < at {
            assert(totals@[other] < totals@[at as int]);
            assert(totals@[at as int] <= totals@[other]);
        }
        if at < other {
            assert(totals@[at as int] < totals@[other]);
            assert(totals@[other] <= totals@[at as int]);
        }
    }
    at
}

/// The sum of the three greatest totals; `None` if it does not fit.
pub fn top_three(totals: Vec<u32>) -> (sum: Option<u32>)
    ensures
        sum == if sum_of_greatest(totals@, 3) <= u32::MAX {
            Some(sum_of_greatest(totals@, 3) as u32)
        } else {
            None
        },
{
    let mut left = totals;
    let mut sum: u64 = 0;
    let mut taken: usize = 0;
    while taken < 3 && left.len() > 0
        invariant
            taken <= 3,
            sum <= taken * 0xffff_ffff,
            sum_of_greatest(totals@, 3) == sum + sum_of_greatest(left@, (3 - taken) as nat),
        decreases 3 - taken,
    {
        let at = find_greatest(&left);
        let value = left.remove(at);
        sum += value as u64;
        taken += 1;
    }
    if sum <= 0xffff_ffff {
        Some(sum as u32)
    } else {
        None
    }
}

} // verus!
