//! Rucksacks of lettered items: the item packed into both halves of one
//! rucksack, and the item common to three rucksacks.

use vstd::prelude::*;

verus! {

/// Whether the byte is a letter of the alphabet, small or capital.
pub open spec fn is_letter(b: u8) -> bool {
    65 <= b <= 90 || 97 <= b <= 122
}

/// Whether every item of the rucksack is a letter.
pub open spec fn lettered(line: Seq<u8>) -> bool {
    forall|i: int| 0 <= i < line.len() ==> is_letter(#[trigger] line[i])
}

/// The priority of an item: 1 to 26 for `a` to `z`, 27 to 52 for `A` to
/// `Z`.
pub open spec fn priority(b: u8) -> int {
    if b >= 97 {
        b - 96
    } else {
        b - 38
    }
}

/// The letter that has the priority `p`.
pub open spec fn letter_of(p: int) -> u8 {
    if p <= 26 {
        (p + 96) as u8
    } else {
        (p + 38) as u8
    }
}

/// The second half of the rucksack; of an odd number of items it holds the
/// one in the middle.
pub open spec fn second_half(line: Seq<u8>) -> Seq<u8> {
    line.subrange(line.len() as int / 2, line.len() as int)
}

/// The priority of the first item at or after `from` in the first half
/// that the second half holds too; 0 if there is none.
pub open spec fn misplaced_from(line: Seq<u8>, from: int) -> int
    decreases line.len() / 2 - from,
{
    if from >= line.len() / 2 {
        0
    } else if second_half(line).contains(line[from]) {
        priority(line[from])
    } else {
        misplaced_from(line, from + 1)
    }
}

/// The least priority from `p` on of an item that all three rucksacks
/// hold; 53 if there is none.
pub open spec fn badge_from(a: Seq<u8>, b: Seq<u8>, c: Seq<u8>, p: int) -> int
    decreases 53 - p,
{
    if p >= 53 {
        53
    } else if a.contains(letter_of(p)) && b.contains(letter_of(p)) && c.contains(letter_of(p)) {
        p
    } else {
        badge_from(a, b, c, p + 1)
    }
}

/// Whether the first `groups` groups of three rucksacks hold letters only
/// and have an item in common each.
pub open spec fn sorted_out(lines: Seq<Vec<u8>>, groups: int) -> bool {
    &&& forall|i: int| 0 <= i < 3 * groups ==> lettered(#[trigger] lines[i]@)
    &&& forall|g: int|
        0 <= g < groups ==> #[trigger] badge_from(
            lines[3 * g]@,
            lines[3 * g + 1]@,
            lines[3 * g + 2]@,
            1,
        ) < 53
}

/// The sum of the priorities of the misplaced items of the first `count`
/// rucksacks.
pub open spec fn misplaced_total(lines: Seq<Vec<u8>>, count: int) -> int
    decreases count,
{
    if count <= 0 {
        0
    } else {
        misplaced_total(lines, count - 1) + misplaced_from(lines[count - 1]@, 0)
    }
}

/// The sum of the priorities of the common items of the first `groups`
/// groups of three rucksacks.
pub open spec fn badge_total(lines: Seq<Vec<u8>>, groups: int) -> int
    decreases groups,
{
    if groups <= 0 {
        0
    } else {
        badge_total(lines, groups - 1) + badge_from(
            lines[3 * groups - 3]@,
            lines[3 * groups - 2]@,
            lines[3 * groups - 1]@,
            1,
        )
    }
}

/// The priority of the item.
pub fn priority_of(b: u8) -> (p: u32)
    requires
        is_letter(b),
    ensures
        p == priority(b),
        1 <= p <= 52,
{
    if b >= 97 {
        (b - 96) as u32
    } else {
        (b - 38) as u32
    }
}

/// Whether the rucksack holds the item at or after `from`.
pub fn holds_from(line: &[u8], from: usize, item: u8) -> (yes: bool)
    requires
        from <= line@.len(),
    ensures
        yes == line@.subrange(from as int, line@.len() as int).contains(item),
{
    let ghost part = line@.subrange(from as int, line@.len() as int);
    let mut i: usize = from;
    while i < line.len()
        invariant
            from <= i <= line@.len(),
            part == line@.subrange(from as int, line@.len() as int),
            forall|k: int| 0 <= k < i - from ==> #[trigger] part[k] != item,
        decreases line@.len() - i,
    {
        if line[i] == item {
            assert(part[i - from] == item);
            return true;
        }
        i += 1;
    }
    false
}

/// Whether every item of the rucksack is a letter.
pub fn is_lettered(line: &[u8]) -> (yes: bool)
    ensures
        yes == lettered(line@),
{
    let mut i: usize = 0;
    while i < line.len()
        invariant
            i <= line@.len(),
            forall|k: int| 0 <= k < i ==> is_letter(#[trigger] line@[k]),
        decreases line@.len() - i,
    {
        let b = line[i];
        if !((65 <= b && b <= 90) || (97 <= b && b <= 122)) {
            return false;
        }
        i += 1;
    }
    true
}

/// The priority of the first item of the first half that the second half
/// holds too; 0 if there is none.
pub fn misplaced_priority(line: &[u8]) -> (p: u32)
    requires
        lettered(line@),
    ensures
        p == misplaced_from(line@, 0),
        p <= 52,
{
    let mid = line.len() / 2;
    let mut i: usize = 0;
    while i < mid
        invariant
            i <= mid,
            mid == line@.len() / 2,
            lettered(line@),
            misplaced_from(line@, 0) == misplaced_from(line@, i as int),
        decreases mid - i,
    {
        if holds_from(line, mid, line[i]) {
            return priority_of(line[i]);
        }
        i += 1;
    }
    0
}

/// The least priority of an item that all three rucksacks hold, if there is
/// such an item.
pub fn badge_priority(a: &[u8], b: &[u8], c: &[u8]) -> (badge: Option<u32>)
    ensures
        badge is Some == (badge_from(a@, b@, c@, 1) < 53),
        badge matches Some(p) ==> p == badge_from(a@, b@, c@, 1) && 1 <= p <= 52,
{
    let mut p: u8 = 1;
    while p < 53
        invariant
            1 <= p <= 53,
            badge_from(a@, b@, c@, 1) == badge_from(a@, b@, c@, p as int),
        decreases 53 - p,
    {
        let letter: u8 = if p <= 26 {
            p + 96
        } else {
            p + 38
        };
        assert(a@.subrange(0, a@.len() as int) =~= a@);
        assert(b@.subrange(0, b@.len() as int) =~= b@);
        assert(c@.subrange(0, c@.len() as int) =~= c@);
        if holds_from(a, 0, letter) && holds_from(b, 0, letter) && holds_from(c, 0, letter) {
            return Some(p as u32);
        }
        p += 1;
    }
    None
}

/// The sum of the priorities of the misplaced items, and the sum of the
/// priorities of the items common to each group of three rucksacks. One or
/// two rucksacks left over after the last group are not looked at. `None`
/// if a rucksack of a group holds anything but letters, or a group has no
/// item in common.
pub fn rucksack_totals(lines: &Vec<Vec<u8>>) -> (totals: Option<(u128, u128)>)
    ensures
        totals is Some == sorted_out(lines@, lines@.len() as int / 3),
        totals matches Some((misplaced, badges)) ==> misplaced == misplaced_total(
            lines@,
            3 * (lines@.len() as int / 3),
        ) && badges == badge_total(lines@, lines@.len() as int / 3),
{
    let groups = lines.len() / 3;
    let mut misplaced: u128 = 0;
    let mut badges: u128 = 0;
    let mut g: usize = 0;
    while g < groups
        invariant
            g <= groups,
            groups == lines@.len() / 3,
            3 * groups <= lines@.len() <= usize::MAX,
            sorted_out(lines@, g as int),
            misplaced == misplaced_total(lines@, 3 * g),
            badges == badge_total(lines@, g as int),
            misplaced <= 156 * g,
            badges <= 52 * g,
        decreases groups - g,
    {
        let ghost before = badges;
        let a = lines[3 * g].as_slice();
        let b = lines[3 * g + 1].as_slice();
        let c = lines[3 * g + 2].as_slice();
        if !is_lettered(a) || !is_lettered(b) || !is_lettered(c) {
            assert(!sorted_out(lines@, groups as int));
            return None;
        }
        let badge = match badge_priority(a, b, c) {
            Some(badge) => badge,
            None => {
                assert(badge_from(lines@[3 * g]@, lines@[3 * g + 1]@, lines@[3 * g + 2]@, 1) >= 53);
                assert(!sorted_out(lines@, groups as int));
                return None;
            },
        };
        misplaced = misplaced + misplaced_priority(a) as u128 + misplaced_priority(b) as u128
            + misplaced_priority(c) as u128;
        badges = badges + badge as u128;
        proof {
            assert(a@ == lines@[3 * g as int]@);
            assert(badge == badge_from(a@, b@, c@, 1));
            assert(badges == before + badge);
            assert(misplaced_total(lines@, 3 * g + 3) == misplaced_total(lines@, 3 * g + 2)
                + misplaced_from(lines@[3 * g + 2]@, 0));
            assert(misplaced_total(lines@, 3 * g + 2) == misplaced_total(lines@, 3 * g + 1)
                + misplaced_from(lines@[3 * g + 1]@, 0));
            assert(misplaced_total(lines@, 3 * g + 1) == misplaced_total(lines@, 3 * g)
                + misplaced_from(lines@[3 * g as int]@, 0));
            assert(badge_total(lines@, g + 1) == badge_total(lines@, g as int) + badge_from(
                lines@[3 * (g + 1) - 3]@,
                lines@[3 * (g + 1) - 2]@,
                lines@[3 * (g + 1) - 1]@,
                1,
            ));
            assert forall|k: int| 0 <= k < g + 1 implies #[trigger] badge_from(
                lines@[3 * k]@,
                lines@[3 * k + 1]@,
                lines@[3 * k + 2]@,
                1,
            ) < 53 by {}
        }
        g += 1;
    }
    Some((misplaced, badges))
}

} // verus!
