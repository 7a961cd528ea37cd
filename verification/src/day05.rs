//! Crates moved between stacks, as many at a time as a step says.

use vstd::prelude::*;
use vstd::pervasive::unreached;
use vstd::string::StringSliceAdditionalSpecFns;
use crate::text::{copy_part, parse_usize, unsigned_value};

verus! {

/// One step of the procedure: so many crates from one stack to another,
/// the stacks counted from one.
#[derive(Debug, Clone, Copy, PartialEq, Eq)]
pub struct ProcStep {
    pub num: usize,
    pub from: usize,
    pub to: usize,
}

/// The byte that parts the words of a line.
pub const SPACE: u8 = 32;

/// The first place at or after `from` that holds a space, or the length of
/// the text if there is none.
pub open spec fn next_space(s: Seq<u8>, from: int) -> int
    decreases s.len() - from,
{
    if from >= s.len() {
        s.len() as int
    } else if s[from] == SPACE {
        from
    } else {
        next_space(s, from + 1)
    }
}

/// Where word number `k` begins: at the start, or after the space that
/// ends the word before.
pub open spec fn word_start(s: Seq<u8>, k: nat) -> int
    decreases k,
{
    if k == 0 {
        0
    } else {
        next_space(s, word_start(s, (k - 1) as nat)) + 1
    }
}

/// Word number `k` of the text, words being parted by single spaces.
pub open spec fn word(s: Seq<u8>, k: nat) -> Seq<u8> {
    s.subrange(word_start(s, k), next_space(s, word_start(s, k)))
}

/// What follows the first `k` words and the space after each of them.
pub open spec fn rest_after(s: Seq<u8>, k: nat) -> Seq<u8> {
    s.subrange(word_start(s, k), s.len() as int)
}

/// The step that a line of six parts tells of: its second and fourth word
/// and what follows the fifth, each a numeral.
pub open spec fn step_of(s: Seq<u8>) -> Option<ProcStep> {
    if word_start(s, 5) <= s.len() {
        match (unsigned_value(word(s, 1)), unsigned_value(word(s, 3)), unsigned_value(rest_after(s, 5))) {
            (Some(num), Some(from), Some(to)) => if num <= usize::MAX && from <= usize::MAX && to
                <= usize::MAX {
                Some(ProcStep { num: num as usize, from: from as usize, to: to as usize })
            } else {
                None
            },
            _ => None,
        }
    } else {
        None
    }
}

/// The first place at or after `from` that holds a space.
pub fn find_space(bytes: &[u8], from: usize) -> (at: usize)
    requires
        from <= bytes@.len(),
    ensures
        at == next_space(bytes@, from as int),
        from <= at <= bytes@.len(),
{
    let mut at = from;
    while at < bytes.len() && bytes[at] != SPACE
        invariant
            from <= at <= bytes@.len(),
            next_space(bytes@, from as int) == next_space(bytes@, at as int),
        decreases bytes@.len() - at,
    {
        at += 1;
    }
    at
}

/// The step that the bytes of a line tell of, if they tell of one.
pub fn read_step(bytes: &[u8]) -> (step: Option<ProcStep>)
    ensures
        step == step_of(bytes@),
{
    let ghost s = bytes@;
    let mut starts: Vec<usize> = Vec::new();
    starts.push(0);
    let mut k: usize = 0;
    while k < 5
        invariant
            k <= 5,
            s == bytes@,
            starts@.len() == k + 1,
            forall|i: int| 0 <= i <= k ==> 0 <= #[trigger] starts@[i] <= s.len() && starts@[i]
                == word_start(s, i as nat),
        decreases 5 - k,
    {
        let space = find_space(bytes, starts[k]);
        if space >= bytes.len() {
            assert(word_start(s, (k + 1) as nat) > s.len());
            assert(word_start(s, 5) > s.len()) by {
                lemma_starts_grow(s, (k + 1) as nat, 5);
            }
            return None;
        }
        starts.push(space + 1);
        k += 1;
    }
    let num_end = find_space(bytes, starts[1]);
    let from_end = find_space(bytes, starts[3]);
    let num = parse_usize(copy_part(bytes, starts[1], num_end).as_slice());
    let from = parse_usize(copy_part(bytes, starts[3], from_end).as_slice());
    let to = parse_usize(copy_part(bytes, starts[5], bytes.len()).as_slice());
    match (num, from, to) {
        (Some(num), Some(from), Some(to)) => Some(ProcStep { num, from, to }),
        _ => None,
    }
}

/// Words begin one after the other, and past the end of the text all at
/// the same place.
pub proof fn lemma_starts_grow(s: Seq<u8>, k: nat, m: nat)
    requires
        k <= m,
    ensures
        0 <= word_start(s, k) <= word_start(s, m) <= s.len() + 1,
        word_start(s, k) > s.len() ==> word_start(s, m) > s.len(),
    decreases m,
{
    if m > 0 {
        if k < m {
            lemma_starts_grow(s, k, (m - 1) as nat);
        } else {
            lemma_starts_grow(s, (k - 1) as nat, (m - 1) as nat);
        }
        lemma_space_after(s, word_start(s, (m - 1) as nat));
    }
}

/// The next space is not before the place the search starts from, unless
/// that lies past the end.
pub proof fn lemma_space_after(s: Seq<u8>, from: int)
    requires
        0 <= from,
    ensures
        from <= s.len() ==> from <= next_space(s, from) <= s.len(),
        from > s.len() ==> next_space(s, from) == s.len(),
    decreases s.len() - from,
{
    if from < s.len() && s[from] != SPACE {
        lemma_space_after(s, from + 1);
    }
}

impl ProcStep {
    /// The step that a line tells of.
    pub fn parse(s: &str) -> (step: ProcStep)
        requires
            step_of(s.spec_bytes()) is Some,
        ensures
            Some(step) == step_of(s.spec_bytes()),
    {
        match read_step(s.as_bytes()) {
            Some(step) => step,
            None => unreached(),
        }
    }
}

/// Whether the step can be taken: both stacks are there, they are not the
/// same, and the one to take from holds enough crates.
pub open spec fn can_move(stacks: Seq<Vec<char>>, step: ProcStep) -> bool {
    &&& 1 <= step.from <= stacks.len()
    &&& 1 <= step.to <= stacks.len()
    &&& step.from != step.to
    &&& step.num <= stacks[step.from - 1]@.len()
}

/// The crates that a step takes, the lowest first.
pub open spec fn taken(stacks: Seq<Vec<char>>, step: ProcStep) -> Seq<char> {
    let source = stacks[step.from - 1]@;
    source.subrange(source.len() - step.num, source.len() as int)
}

/// The stacks are those of `before` but for the two of the step: the one
/// has lost the crates taken, the other has them on top as `landed`.
pub open spec fn moved(
    before: Seq<Vec<char>>,
    after: Seq<Vec<char>>,
    step: ProcStep,
    landed: Seq<char>,
) -> bool {
    &&& after.len() == before.len()
    &&& after[step.from - 1]@ == before[step.from - 1]@.subrange(
        0,
        before[step.from - 1]@.len() - step.num,
    )
    &&& after[step.to - 1]@ == before[step.to - 1]@ + landed
    &&& forall|i: int|
        0 <= i < before.len() && i != step.from - 1 && i != step.to - 1 ==> (#[trigger] after[i])@
            == before[i]@
}

/// Moves the crates of a step one by one, so that they land in reverse
/// order.
pub fn move_one_by_one(stacks: &mut Vec<Vec<char>>, step: &ProcStep)
    requires
        can_move(old(stacks)@, *step),
    ensures
        moved(old(stacks)@, final(stacks)@, *step, taken(old(stacks)@, *step).reverse()),
{
    let ghost before = stacks@;
    let ghost source = before[step.from - 1]@;
    let ghost target = before[step.to - 1]@;
    let mut done: usize = 0;
    while done < step.num
        invariant
            done <= step.num,
            can_move(before, *step),
            source == before[step.from - 1]@,
            target == before[step.to - 1]@,
            stacks@.len() == before.len(),
            stacks@[step.from - 1]@ == source.subrange(0, source.len() - done),
            stacks@[step.to - 1]@ == target + source.subrange(
                source.len() - done,
                source.len() as int,
            ).reverse(),
            forall|i: int|
                0 <= i < before.len() && i != step.from - 1 && i != step.to - 1 ==> (
                #[trigger] stacks@[i])@ == before[i]@,
        decreases step.num - done,
    {
        let crate_char = stacks[step.from - 1].pop();
        match crate_char {
            Some(c) => {
                stacks[step.to - 1].push(c);
            },
            None => {},
        }
        proof {
            let top = source.subrange(source.len() - done, source.len() as int);
            let more = source.subrange(source.len() - done - 1, source.len() as int);
            assert(more.reverse() =~= top.reverse().push(source[source.len() - done - 1]));
            assert(stacks@[step.from - 1]@ =~= source.subrange(0, source.len() - done - 1));
            assert(stacks@[step.to - 1]@ =~= target + more.reverse());
        }
        done += 1;
    }
}

/// Moves the crates of a step all at once, so that they keep their order.
pub fn move_together(stacks: &mut Vec<Vec<char>>, step: &ProcStep)
    requires
        can_move(old(stacks)@, *step),
    ensures
        moved(old(stacks)@, final(stacks)@, *step, taken(old(stacks)@, *step)),
{
    let ghost before = stacks@;
    let mut tmp: Vec<char> = Vec::new();
    move_onto(stacks, step.from - 1, &mut tmp, step.num);
    let ghost lifted = tmp@;
    let ghost source = before[step.from - 1]@;
    let ghost target = before[step.to - 1]@;
    let mut done: usize = 0;
    while done < step.num
        invariant
            done <= step.num,
            can_move(before, *step),
            lifted == taken(before, *step).reverse(),
            source == before[step.from - 1]@,
            target == before[step.to - 1]@,
            stacks@.len() == before.len(),
            tmp@ == lifted.subrange(0, step.num - done),
            stacks@[step.from - 1]@ == source.subrange(0, source.len() - step.num),
            stacks@[step.to - 1]@ == target + lifted.subrange(
                step.num - done,
                step.num as int,
            ).reverse(),
            forall|i: int|
                0 <= i < before.len() && i != step.from - 1 && i != step.to - 1 ==> (
                #[trigger] stacks@[i])@ == before[i]@,
        decreases step.num - done,
    {
        match tmp.pop() {
            Some(c) => {
                stacks[step.to - 1].push(c);
            },
            None => {},
        }
        proof {
            let top = lifted.subrange(step.num - done, step.num as int);
            let more = lifted.subrange(step.num - done - 1, step.num as int);
            assert(more.reverse() =~= top.reverse().push(lifted[step.num - done - 1]));
            assert(tmp@ =~= lifted.subrange(0, step.num - done - 1));
            assert(stacks@[step.to - 1]@ =~= target + more.reverse());
        }
        done += 1;
    }
    proof {
        let all = lifted.subrange(0, step.num as int);
        assert(all =~= lifted);
        assert(lifted.reverse() =~= taken(before, *step));
    }
}

/// Takes `num` crates off stack number `from`, one by one, and puts them
/// onto `pile`.
pub fn move_onto(stacks: &mut Vec<Vec<char>>, from: usize, pile: &mut Vec<char>, num: usize)
    requires
        from < old(stacks)@.len(),
        num <= old(stacks)@[from as int]@.len(),
    ensures
        final(stacks)@.len() == old(stacks)@.len(),
        final(stacks)@[from as int]@ == old(stacks)@[from as int]@.subrange(
            0,
            old(stacks)@[from as int]@.len() - num,
        ),
        final(pile)@ == old(pile)@ + old(stacks)@[from as int]@.subrange(
            old(stacks)@[from as int]@.len() - num,
            old(stacks)@[from as int]@.len() as int,
        ).reverse(),
        forall|i: int|
            0 <= i < old(stacks)@.len() && i != from ==> (#[trigger] final(stacks)@[i])@ == old(
                stacks,
            )@[i]@,
{
    let ghost before = stacks@;
    let ghost source = before[from as int]@;
    let ghost start = pile@;
    let mut done: usize = 0;
    while done < num
        invariant
            done <= num <= source.len(),
            from < before.len(),
            source == before[from as int]@,
            stacks@.len() == before.len(),
            stacks@[from as int]@ == source.subrange(0, source.len() - done),
            pile@ == start + source.subrange(source.len() - done, source.len() as int).reverse(),
            forall|i: int|
                0 <= i < before.len() && i != from ==> (#[trigger] stacks@[i])@ == before[i]@,
        decreases num - done,
    {
        match stacks[from].pop() {
            Some(c) => {
                pile.push(c);
            },
            None => {},
        }
        proof {
            let top = source.subrange(source.len() - done, source.len() as int);
            let more = source.subrange(source.len() - done - 1, source.len() as int);
            assert(more.reverse() =~= top.reverse().push(source[source.len() - done - 1]));
            assert(stacks@[from as int]@ =~= source.subrange(0, source.len() - done - 1));
            assert(pile@ =~= start + more.reverse());
        }
        done += 1;
    }
}

/// The crate on top of each stack.
pub fn tops_of_stacks(stacks: &Vec<Vec<char>>) -> (tops: Vec<char>)
    requires
        forall|i: int| 0 <= i < stacks@.len() ==> (#[trigger] stacks@[i])@.len() > 0,
    ensures
        tops@.len() == stacks@.len(),
        forall|i: int| 0 <= i < stacks@.len() ==> #[trigger] tops@[i] == stacks@[i]@.last(),
{
    let mut tops: Vec<char> = Vec::new();
    let mut i: usize = 0;
    while i < stacks.len()
        invariant
            i <= stacks@.len(),
            tops@.len() == i,
            forall|k: int| 0 <= k < stacks@.len() ==> (#[trigger] stacks@[k])@.len() > 0,
            forall|k: int| 0 <= k < i ==> #[trigger] tops@[k] == stacks@[k]@.last(),
        decreases stacks@.len() - i,
    {
        let stack = &stacks[i];
        tops.push(stack[stack.len() - 1]);
        i += 1;
    }
    tops
}

} // verus!
