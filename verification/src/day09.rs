//! A rope of ten knots whose head is pulled over a lattice, each knot
//! following the one before it.

use vstd::prelude::*;
use crate::text::{copy_part, parse_usize, unsigned_value};

verus! {

pub type Knot = (i64, i64);

pub const KNOTS: usize = 10;

#[derive(Debug, Clone, Copy, PartialEq, Eq)]
pub enum Heading {
    Left,
    Right,
    Up,
    Down,
}

/// The head goes `steps` times one place in the direction `heading`.
#[derive(Debug, Clone, Copy, PartialEq, Eq)]
pub struct Motion {
    pub heading: Heading,
    pub steps: u32,
}

/// The place of a knot as a pair of mathematical integers.
pub open spec fn at(knot: Knot) -> (int, int) {
    (knot.0 as int, knot.1 as int)
}

/// The places of the knots, from the head on.
pub open spec fn places(knots: Seq<Knot>) -> Seq<(int, int)> {
    Seq::new(knots.len(), |k: int| at(knots[k]))
}

/// Whether both coordinates fit the machine's integers.
pub open spec fn fits(p: (int, int)) -> bool {
    i64::MIN <= p.0 <= i64::MAX && i64::MIN <= p.1 <= i64::MAX
}

/// -1, 0 or 1, as `d` is below, at or above 0.
pub open spec fn sign(d: int) -> int {
    if d > 0 {
        1
    } else if d < 0 {
        -1
    } else {
        0
    }
}

/// The place next to `p` in the direction `heading`; up is towards the
/// smaller second coordinate.
pub open spec fn shifted(p: (int, int), heading: Heading) -> (int, int) {
    match heading {
        Heading::Left => (p.0 - 1, p.1),
        Heading::Right => (p.0 + 1, p.1),
        Heading::Up => (p.0, p.1 - 1),
        Heading::Down => (p.0, p.1 + 1),
    }
}

/// Where a knot at `tail` goes when the knot before it stands at `head`: it
/// stays while the two touch, and else moves one place towards `head` along
/// each axis on which they differ.
pub open spec fn follow(head: (int, int), tail: (int, int)) -> (int, int) {
    let dx = head.0 - tail.0;
    let dy = head.1 - tail.1;
    if dx > 1 || dx < -1 || dy > 1 || dy < -1 {
        (tail.0 + sign(dx), tail.1 + sign(dy))
    } else {
        tail
    }
}

/// The rope after its head has gone one place in the direction `heading`
/// and each other knot, in turn, has followed the one before it.
pub open spec fn pulled(rope: Seq<(int, int)>, heading: Heading) -> Seq<(int, int)>
    decreases rope.len(),
{
    if rope.len() == 0 {
        rope
    } else if rope.len() == 1 {
        seq![shifted(rope[0], heading)]
    } else {
        let front = pulled(rope.drop_last(), heading);
        front.push(follow(front.last(), rope.last()))
    }
}

/// The rope after `n` such pulls.
pub open spec fn after_steps(rope: Seq<(int, int)>, heading: Heading, n: nat) -> Seq<(int, int)>
    decreases n,
{
    if n == 0 {
        rope
    } else {
        pulled(after_steps(rope, heading, (n - 1) as nat), heading)
    }
}

/// The rope at the start: every knot at the origin.
pub open spec fn coiled() -> Seq<(int, int)> {
    Seq::new(KNOTS as nat, |k: int| (0int, 0int))
}

/// The rope after the motions, begun with every knot at the origin.
pub open spec fn rope_after(motions: Seq<Motion>) -> Seq<(int, int)>
    decreases motions.len(),
{
    if motions.len() == 0 {
        coiled()
    } else {
        after_steps(rope_after(motions.drop_last()), motions.last().heading, motions.last().steps as nat)
    }
}

/// The places at which the knot `index` stands after each of the first `n`
/// pulls in the direction `heading`.
pub open spec fn trail(rope: Seq<(int, int)>, heading: Heading, n: nat, index: int) -> Set<(int, int)>
    decreases n,
{
    if n == 0 {
        Set::empty()
    } else {
        trail(rope, heading, (n - 1) as nat, index).insert(after_steps(rope, heading, n)[index])
    }
}

/// The places at which the knot `index` has stood at the start or after a
/// pull of the motions.
pub open spec fn visited(motions: Seq<Motion>, index: int) -> Set<(int, int)>
    decreases motions.len(),
{
    if motions.len() == 0 {
        set![(0int, 0int)]
    } else {
        visited(motions.drop_last(), index).union(
            trail(
                rope_after(motions.drop_last()),
                motions.last().heading,
                motions.last().steps as nat,
                index,
            ),
        )
    }
}

/// Whether the head stays within the machine's integers during the first
/// `n` pulls.
pub open spec fn head_stays(rope: Seq<(int, int)>, heading: Heading, n: nat) -> bool {
    forall|k: nat| 0 < k <= n ==> fits((#[trigger] after_steps(rope, heading, k))[0])
}

/// Whether the head stays within the machine's integers during all the
/// motions.
pub open spec fn head_never_leaves(motions: Seq<Motion>) -> bool {
    forall|m: int|
        0 <= m < motions.len() ==> head_stays(
            #[trigger] rope_after(motions.take(m)),
            motions[m].heading,
            motions[m].steps as nat,
        )
}

/// Whether each knot touches the one before it: they differ by at most one
/// along each axis.
pub open spec fn taut(rope: Seq<(int, int)>) -> bool {
    forall|k: int|
        0 < k < rope.len() ==> -1 <= #[trigger] rope[k].0 - rope[k - 1].0 <= 1 && -1 <= rope[k].1
            - rope[k - 1].1 <= 1
}

/// A knot that follows goes at most one place along each axis, and touches
/// the one before it afterwards.
pub proof fn lemma_follow(head: (int, int), tail: (int, int))
    requires
        -2 <= head.0 - tail.0 <= 2,
        -2 <= head.1 - tail.1 <= 2,
    ensures
        -1 <= follow(head, tail).0 - tail.0 <= 1,
        -1 <= follow(head, tail).1 - tail.1 <= 1,
        -1 <= head.0 - follow(head, tail).0 <= 1,
        -1 <= head.1 - follow(head, tail).1 <= 1,
{
}

/// Where the knot after one at `head` goes from `tail`.
pub fn follow_knot(head: Knot, tail: Knot) -> (next: Knot)
    requires
        -2 <= head.0 - tail.0 <= 2,
        -2 <= head.1 - tail.1 <= 2,
    ensures
        at(next) == follow(at(head), at(tail)),
{
    let dx: i64 = head.0 - tail.0;
    let dy: i64 = head.1 - tail.1;
    if dx > 1 || dx < -1 || dy > 1 || dy < -1 {
        let x: i64 = if dx > 0 {
            tail.0 + 1
        } else if dx < 0 {
            tail.0 - 1
        } else {
            tail.0
        };
        let y: i64 = if dy > 0 {
            tail.1 + 1
        } else if dy < 0 {
            tail.1 - 1
        } else {
            tail.1
        };
        (x, y)
    } else {
        tail
    }
}

/// The place next to `knot` in the direction `heading`; `None` if it is
/// beyond the machine's integers.
pub fn shift_knot(knot: Knot, heading: Heading) -> (next: Option<Knot>)
    ensures
        next is Some == fits(shifted(at(knot), heading)),
        next matches Some(n) ==> at(n) == shifted(at(knot), heading),
{
    match heading {
        Heading::Left => match knot.0.checked_sub(1) {
            Some(x) => Some((x, knot.1)),
            None => None,
        },
        Heading::Right => match knot.0.checked_add(1) {
            Some(x) => Some((x, knot.1)),
            None => None,
        },
        Heading::Up => match knot.1.checked_sub(1) {
            Some(y) => Some((knot.0, y)),
            None => None,
        },
        Heading::Down => match knot.1.checked_add(1) {
            Some(y) => Some((knot.0, y)),
            None => None,
        },
    }
}

/// Pulling a rope moves its head one place, and leaves its length.
pub proof fn lemma_pulled_head(rope: Seq<(int, int)>, heading: Heading)
    requires
        rope.len() > 0,
    ensures
        pulled(rope, heading).len() == rope.len(),
        pulled(rope, heading)[0] == shifted(rope[0], heading),
    decreases rope.len(),
{
    if rope.len() > 1 {
        lemma_pulled_head(rope.drop_last(), heading);
    }
}

/// Pulls the head one place in the direction `heading` and lets the other
/// knots follow. Returns whether the head could go: if its new place is
/// beyond the machine's integers, the rope is left as it was.
pub fn pull(knots: &mut [Knot; 10], heading: Heading) -> (gone: bool)
    requires
        taut(places(old(knots)@)),
    ensures
        gone == fits(shifted(at(old(knots)@[0]), heading)),
        gone ==> places(final(knots)@) == pulled(places(old(knots)@), heading),
        !gone ==> *final(knots) == *old(knots),
        taut(places(final(knots)@)),
{
    let ghost start = places(knots@);
    let head = match shift_knot(knots[0], heading) {
        Some(head) => head,
        None => {
            return false;
        },
    };
    knots[0] = head;
    proof {
        assert(start.take(1) =~= seq![start[0]]);
        assert(places(knots@).take(1) =~= seq![shifted(start[0], heading)]);
    }
    let mut i: usize = 1;
    while i < 10
        invariant
            1 <= i <= 10,
            start.len() == 10,
            start == places(old(knots)@),
            taut(start),
            places(knots@).take(i as int) == pulled(start.take(i as int), heading),
            forall|k: int| i <= k < 10 ==> at(#[trigger] knots@[k]) == start[k],
            taut(places(knots@).take(i as int)),
            -1 <= knots@[i - 1].0 - start[i - 1].0 <= 1,
            -1 <= knots@[i - 1].1 - start[i - 1].1 <= 1,
        decreases 10 - i,
    {
        let ghost before = places(knots@);
        let ghost front = pulled(start.take(i as int), heading);
        proof {
            assert(start[i as int].0 - start[i - 1].0 == start[i as int].0 - start[i - 1].0);
            assert(before.take(i as int)[i - 1] == before[i - 1]);
            assert(start.take(i + 1).drop_last() =~= start.take(i as int));
            assert(front.len() == i);
            assert(front.last() == before[i - 1]);
            lemma_follow(at(knots@[i - 1]), at(knots@[i as int]));
        }
        let next = follow_knot(knots[i - 1], knots[i]);
        knots[i] = next;
        proof {
            let after = places(knots@);
            assert(after.take(i + 1) =~= before.take(i as int).push(at(next)));
            assert(start.take(i + 1).last() == start[i as int]);
            assert forall|k: int| 0 < k < i + 1 implies -1 <= #[trigger] after.take(i + 1)[k].0
                - after.take(i + 1)[k - 1].0 <= 1 && -1 <= after.take(i + 1)[k].1 - after.take(
                i + 1,
            )[k - 1].1 <= 1 by {
                if k < i {
                    assert(before.take(i as int)[k] == after.take(i + 1)[k]);
                    assert(before.take(i as int)[k - 1] == after.take(i + 1)[k - 1]);
                    assert(-1 <= before.take(i as int)[k].0 - before.take(i as int)[k - 1].0 <= 1);
                }
            }
        }
        i += 1;
    }
    proof {
        assert(places(knots@).take(10) =~= places(knots@));
        assert(start.take(10) =~= start);
    }
    true
}

/// The places of the noted knots.
pub open spec fn noted(seen: Seq<Knot>) -> Set<(int, int)> {
    places(seen).to_set()
}

/// Notes the place of a knot unless it is noted already.
pub fn note(seen: &mut Vec<Knot>, knot: Knot)
    requires
        places(old(seen)@).no_duplicates(),
    ensures
        places(final(seen)@).no_duplicates(),
        noted(final(seen)@) == noted(old(seen)@).insert(at(knot)),
{
    let ghost before = places(seen@);
    let mut i: usize = 0;
    while i < seen.len()
        invariant
            i <= seen@.len(),
            *seen == *old(seen),
            before == places(seen@),
            before.no_duplicates(),
            forall|k: int| 0 <= k < i ==> #[trigger] before[k] != at(knot),
        decreases seen@.len() - i,
    {
        if seen[i].0 == knot.0 && seen[i].1 == knot.1 {
            proof {
                assert(before[i as int] == at(knot));
                assert(before.to_set().contains(at(knot)));
                assert(before.to_set().insert(at(knot)) =~= before.to_set());
            }
            return ;
        }
        i += 1;
    }
    seen.push(knot);
    proof {
        assert(places(seen@) =~= before.push(at(knot)));
        before.lemma_push_to_set_commute(at(knot));
    }
}

/// Carries out one motion, pull by pull, and notes where the knot after the
/// head and the last knot come to stand. Returns whether the head could go
/// all the way; if not, the rope stops where the head would leave the
/// machine's integers.
pub fn pull_along(
    knots: &mut [Knot; 10],
    seen_second: &mut Vec<Knot>,
    seen_last: &mut Vec<Knot>,
    motion: Motion,
) -> (gone: bool)
    requires
        taut(places(old(knots)@)),
        places(old(seen_second)@).no_duplicates(),
        places(old(seen_last)@).no_duplicates(),
    ensures
        gone == head_stays(places(old(knots)@), motion.heading, motion.steps as nat),
        gone ==> places(final(knots)@) == after_steps(
            places(old(knots)@),
            motion.heading,
            motion.steps as nat,
        ),
        gone ==> noted(final(seen_second)@) == noted(old(seen_second)@).union(
            trail(places(old(knots)@), motion.heading, motion.steps as nat, 1),
        ),
        gone ==> noted(final(seen_last)@) == noted(old(seen_last)@).union(
            trail(places(old(knots)@), motion.heading, motion.steps as nat, 9),
        ),
        taut(places(final(knots)@)),
        places(final(seen_second)@).no_duplicates(),
        places(final(seen_last)@).no_duplicates(),
{
    let ghost rope = places(knots@);
    let ghost second = noted(seen_second@);
    let ghost last = noted(seen_last@);
    proof {
        assert(second.union(trail(rope, motion.heading, 0, 1)) =~= second);
        assert(last.union(trail(rope, motion.heading, 0, 9)) =~= last);
    }
    let mut n: u32 = 0;
    while n < motion.steps
        invariant
            n <= motion.steps,
            rope == places(old(knots)@),
            rope.len() == 10,
            places(knots@) == after_steps(rope, motion.heading, n as nat),
            taut(places(knots@)),
            places(seen_second@).no_duplicates(),
            places(seen_last@).no_duplicates(),
            noted(seen_second@) == second.union(trail(rope, motion.heading, n as nat, 1)),
            noted(seen_last@) == last.union(trail(rope, motion.heading, n as nat, 9)),
            head_stays(rope, motion.heading, n as nat),
        decreases motion.steps - n,
    {
        let ghost now = places(knots@);
        let ghost next = after_steps(rope, motion.heading, (n + 1) as nat);
        proof {
            lemma_pulled_head(now, motion.heading);
            assert(now[0] == at(knots@[0]));
            assert(next == pulled(now, motion.heading));
        }
        if !pull(knots, motion.heading) {
            proof {
                assert(!fits(next[0]));
            }
            return false;
        }
        note(seen_second, knots[1]);
        note(seen_last, knots[9]);
        proof {
            assert(places(knots@) == next);
            assert(next[0] == at(knots@[0]));
            assert(next[1] == at(knots@[1]));
            assert(next[9] == at(knots@[9]));
            assert(second.union(trail(rope, motion.heading, n as nat, 1)).insert(next[1])
                =~= second.union(trail(rope, motion.heading, (n + 1) as nat, 1)));
            assert(last.union(trail(rope, motion.heading, n as nat, 9)).insert(next[9])
                =~= last.union(trail(rope, motion.heading, (n + 1) as nat, 9)));
            assert forall|k: nat| 0 < k <= n + 1 implies fits(
                (#[trigger] after_steps(rope, motion.heading, k))[0],
            ) by {
                if k == n + 1 {
                    assert(after_steps(rope, motion.heading, k) == next);
                }
            }
        }
        n += 1;
    }
    true
}

/// How many places the knot after the head, and how many the last knot,
/// stand at in the course of the motions, begun with every knot at the
/// origin; `None` if the head would go beyond the machine's integers.
pub fn count_visited(motions: &Vec<Motion>) -> (counts: Option<(usize, usize)>)
    ensures
        counts is Some == head_never_leaves(motions@),
        counts matches Some((second, last)) ==> second == visited(motions@, 1).len() && last
            == visited(motions@, 9).len(),
{
    let mut knots: [Knot; 10] = [(0, 0); 10];
    let mut seen_second: Vec<Knot> = Vec::new();
    let mut seen_last: Vec<Knot> = Vec::new();
    note(&mut seen_second, knots[1]);
    note(&mut seen_last, knots[9]);
    proof {
        assert(places(knots@) =~= coiled());
        assert(noted(seen_second@) =~= set![(0int, 0int)]);
        assert(noted(seen_last@) =~= set![(0int, 0int)]);
    }
    let mut m: usize = 0;
    while m < motions.len()
        invariant
            m <= motions@.len(),
            places(knots@) == rope_after(motions@.take(m as int)),
            taut(places(knots@)),
            places(seen_second@).no_duplicates(),
            places(seen_last@).no_duplicates(),
            noted(seen_second@) == visited(motions@.take(m as int), 1),
            noted(seen_last@) == visited(motions@.take(m as int), 9),
            forall|j: int|
                0 <= j < m ==> head_stays(
                    #[trigger] rope_after(motions@.take(j)),
                    motions@[j].heading,
                    motions@[j].steps as nat,
                ),
        decreases motions@.len() - m,
    {
        assert(motions@.take(m + 1).drop_last() =~= motions@.take(m as int));
        if !pull_along(&mut knots, &mut seen_second, &mut seen_last, motions[m]) {
            return None;
        }
        m += 1;
    }
    proof {
        assert(motions@.take(m as int) =~= motions@);
        places(seen_second@).unique_seq_to_set();
        places(seen_last@).unique_seq_to_set();
    }
    Some((seen_second.len(), seen_last.len()))
}

/// The heading that a letter names.
pub open spec fn heading_of(letter: u8) -> Option<Heading> {
    if letter == 76 {
        Some(Heading::Left)
    } else if letter == 82 {
        Some(Heading::Right)
    } else if letter == 85 {
        Some(Heading::Up)
    } else if letter == 68 {
        Some(Heading::Down)
    } else {
        None
    }
}

/// The motion that a line stands for: one of the letters `L`, `R`, `U`,
/// `D`, a space, and the number of steps.
pub open spec fn motion_of(line: Seq<u8>) -> Option<Motion> {
    if line.len() < 2 || line[1] != 32 {
        None
    } else {
        match (heading_of(line[0]), unsigned_value(line.subrange(2, line.len() as int))) {
            (Some(heading), Some(steps)) => if steps <= u32::MAX {
                Some(Motion { heading, steps: steps as u32 })
            } else {
                None
            },
            _ => None,
        }
    }
}

/// The motion that the bytes of a line stand for, if they stand for one.
pub fn read_motion(line: &[u8]) -> (motion: Option<Motion>)
    ensures
        motion == motion_of(line@),
{
    if line.len() < 2 || line[1] != 32 {
        return None;
    }
    let heading = if line[0] == 76 {
        Heading::Left
    } else if line[0] == 82 {
        Heading::Right
    } else if line[0] == 85 {
        Heading::Up
    } else if line[0] == 68 {
        Heading::Down
    } else {
        return None;
    };
    match parse_usize(copy_part(line, 2, line.len()).as_slice()) {
        Some(steps) => if steps <= 0xffff_ffff {
            Some(Motion { heading, steps: steps as u32 })
        } else {
            None
        },
        None => None,
    }
}

} // verus!
