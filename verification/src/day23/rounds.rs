//! The rounds in which the elves spread out: each elf with a neighbour
//! wishes to step away, and steps if no other elf wishes for the same place.

use vstd::prelude::*;

verus! {

pub type Elf = (isize, isize);

/// The place of an elf as a pair of mathematical integers.
pub open spec fn at(elf: Elf) -> (int, int) {
    (elf.0 as int, elf.1 as int)
}

/// Whether the elf is away from the edge of the machine's integers.
pub open spec fn inner(elf: Elf) -> bool {
    isize::MIN < elf.0 < isize::MAX && isize::MIN < elf.1 < isize::MAX
}

/// Whether every elf is away from the edge of the machine's integers.
pub open spec fn all_inner(elves: Seq<Elf>) -> bool {
    forall|i: int| 0 <= i < elves.len() ==> inner(#[trigger] elves[i])
}

/// The places of the elves.
pub open spec fn spots(elves: Seq<Elf>) -> Seq<(int, int)> {
    Seq::new(elves.len(), |i: int| at(elves[i]))
}

/// Whether an elf stands at the place.
pub open spec fn stands(elves: Seq<(int, int)>, x: int, y: int) -> bool {
    exists|i: int| 0 <= i < elves.len() && #[trigger] elves[i] == (x, y)
}

/// Whether an elf stands on one of the eight places around `p`.
pub open spec fn has_neighbour(elves: Seq<(int, int)>, p: (int, int)) -> bool {
    ||| stands(elves, p.0 - 1, p.1 - 1)
    ||| stands(elves, p.0, p.1 - 1)
    ||| stands(elves, p.0 + 1, p.1 - 1)
    ||| stands(elves, p.0 - 1, p.1)
    ||| stands(elves, p.0 + 1, p.1)
    ||| stands(elves, p.0 - 1, p.1 + 1)
    ||| stands(elves, p.0, p.1 + 1)
    ||| stands(elves, p.0 + 1, p.1 + 1)
}

/// Whether no elf stands on the three places on the side `d` of `p`: the
/// side towards the smaller row for 0, the greater row for 1, the smaller
/// column for 2, the greater column for 3.
pub open spec fn clear_towards(elves: Seq<(int, int)>, p: (int, int), d: int) -> bool {
    if d == 0 {
        !stands(elves, p.0 - 1, p.1 - 1) && !stands(elves, p.0, p.1 - 1) && !stands(
            elves,
            p.0 + 1,
            p.1 - 1,
        )
    } else if d == 1 {
        !stands(elves, p.0 - 1, p.1 + 1) && !stands(elves, p.0, p.1 + 1) && !stands(
            elves,
            p.0 + 1,
            p.1 + 1,
        )
    } else if d == 2 {
        !stands(elves, p.0 - 1, p.1 - 1) && !stands(elves, p.0 - 1, p.1) && !stands(
            elves,
            p.0 - 1,
            p.1 + 1,
        )
    } else {
        !stands(elves, p.0 + 1, p.1 - 1) && !stands(elves, p.0 + 1, p.1) && !stands(
            elves,
            p.0 + 1,
            p.1 + 1,
        )
    }
}

/// The place next to `p` on the side `d`.
pub open spec fn ahead(p: (int, int), d: int) -> (int, int) {
    if d == 0 {
        (p.0, p.1 - 1)
    } else if d == 1 {
        (p.0, p.1 + 1)
    } else if d == 2 {
        (p.0 - 1, p.1)
    } else {
        (p.0 + 1, p.1)
    }
}

/// The place ahead on the first clear side, the sides taken in turn from
/// `first` on and the first `tried` of them left out.
pub open spec fn choice_from(elves: Seq<(int, int)>, p: (int, int), first: int, tried: int) -> Option<
    (int, int),
>
    decreases 4 - tried,
{
    if tried >= 4 {
        None
    } else if clear_towards(elves, p, (first + tried) % 4) {
        Some(ahead(p, (first + tried) % 4))
    } else {
        choice_from(elves, p, first, tried + 1)
    }
}

/// The place that an elf at `p` wishes to step to: none if it has no
/// neighbour, else the place ahead on the first clear side.
pub open spec fn wish(elves: Seq<(int, int)>, p: (int, int), first: int) -> Option<(int, int)> {
    if has_neighbour(elves, p) {
        choice_from(elves, p, first, 0)
    } else {
        None
    }
}

/// How many of the first `n` elves wish to step to `p`.
pub open spec fn wishers(elves: Seq<(int, int)>, p: (int, int), first: int, n: int) -> nat
    decreases n,
{
    if n <= 0 {
        0
    } else {
        wishers(elves, p, first, n - 1) + if wish(elves, elves[n - 1], first) == Some(p) {
            1nat
        } else {
            0nat
        }
    }
}

/// Where the elf `i` stands after the round: at the place it wishes for if
/// it is the only one to wish for it, else where it stood.
pub open spec fn next_place(elves: Seq<(int, int)>, i: int, first: int) -> (int, int) {
    match wish(elves, elves[i], first) {
        Some(p) => if wishers(elves, p, first, elves.len() as int) == 1 {
            p
        } else {
            elves[i]
        },
        None => elves[i],
    }
}

/// Whether some elf wishes to step.
pub open spec fn restless(elves: Seq<(int, int)>, first: int) -> bool {
    exists|i: int| 0 <= i < elves.len() && (#[trigger] wish(elves, elves[i], first)) is Some
}

/// Whether an elf stands at the place.
pub fn stands_at(elves: &Vec<Elf>, x: isize, y: isize) -> (yes: bool)
    ensures
        yes == stands(spots(elves@), x as int, y as int),
{
    let mut i: usize = 0;
    while i < elves.len()
        invariant
            i <= elves@.len(),
            forall|k: int| 0 <= k < i ==> #[trigger] spots(elves@)[k] != (x as int, y as int),
        decreases elves@.len() - i,
    {
        if elves[i].0 == x && elves[i].1 == y {
            assert(spots(elves@)[i as int] == (x as int, y as int));
            return true;
        }
        i += 1;
    }
    false
}

/// Whether an elf stands on one of the eight places around the elf.
pub fn is_crowded(elves: &Vec<Elf>, elf: Elf) -> (yes: bool)
    requires
        inner(elf),
    ensures
        yes == has_neighbour(spots(elves@), at(elf)),
{
    let (x, y) = elf;
    stands_at(elves, x - 1, y - 1) || stands_at(elves, x, y - 1) || stands_at(elves, x + 1, y - 1)
        || stands_at(elves, x - 1, y) || stands_at(elves, x + 1, y) || stands_at(
        elves,
        x - 1,
        y + 1,
    ) || stands_at(elves, x, y + 1) || stands_at(elves, x + 1, y + 1)
}

/// Whether no elf stands on the three places on the side `d` of the elf.
pub fn is_clear_towards(elves: &Vec<Elf>, elf: Elf, d: usize) -> (yes: bool)
    requires
        inner(elf),
        d < 4,
    ensures
        yes == clear_towards(spots(elves@), at(elf), d as int),
{
    let (x, y) = elf;
    if d == 0 {
        !stands_at(elves, x - 1, y - 1) && !stands_at(elves, x, y - 1) && !stands_at(
            elves,
            x + 1,
            y - 1,
        )
    } else if d == 1 {
        !stands_at(elves, x - 1, y + 1) && !stands_at(elves, x, y + 1) && !stands_at(
            elves,
            x + 1,
            y + 1,
        )
    } else if d == 2 {
        !stands_at(elves, x - 1, y - 1) && !stands_at(elves, x - 1, y) && !stands_at(
            elves,
            x - 1,
            y + 1,
        )
    } else {
        !stands_at(elves, x + 1, y - 1) && !stands_at(elves, x + 1, y) && !stands_at(
            elves,
            x + 1,
            y + 1,
        )
    }
}

/// The place next to the elf on the side `d`.
pub fn step_towards(elf: Elf, d: usize) -> (next: Elf)
    requires
        inner(elf),
        d < 4,
    ensures
        at(next) == ahead(at(elf), d as int),
{
    let (x, y) = elf;
    if d == 0 {
        (x, y - 1)
    } else if d == 1 {
        (x, y + 1)
    } else if d == 2 {
        (x - 1, y)
    } else {
        (x + 1, y)
    }
}

/// The place that the elf wishes to step to, if any.
pub fn wish_of(elves: &Vec<Elf>, elf: Elf, first: usize) -> (place: Option<Elf>)
    requires
        inner(elf),
        first < 4,
    ensures
        place is Some == wish(spots(elves@), at(elf), first as int) is Some,
        place matches Some(p) ==> wish(spots(elves@), at(elf), first as int) == Some(at(p)) && -1
            <= p.0 - elf.0 <= 1 && -1 <= p.1 - elf.1 <= 1,
{
    if !is_crowded(elves, elf) {
        return None;
    }
    let mut tried: usize = 0;
    while tried < 4
        invariant
            tried <= 4,
            first < 4,
            inner(elf),
            has_neighbour(spots(elves@), at(elf)),
            choice_from(spots(elves@), at(elf), first as int, 0) == choice_from(
                spots(elves@),
                at(elf),
                first as int,
                tried as int,
            ),
        decreases 4 - tried,
    {
        let d = (first + tried) % 4;
        if is_clear_towards(elves, elf, d) {
            return Some(step_towards(elf, d));
        }
        tried += 1;
    }
    None
}

/// How many of the first `n` noted wishes are for the place `p`.
fn count_wishers(
    wishes: &Vec<Option<Elf>>,
    p: Elf,
    Ghost(elves): Ghost<Seq<(int, int)>>,
    Ghost(first): Ghost<int>,
) -> (count: usize)
    requires
        wishes@.len() == elves.len(),
        forall|k: int|
            0 <= k < wishes@.len() ==> noted(#[trigger] wishes@[k]) == wish(elves, elves[k], first),
    ensures
        count == wishers(elves, at(p), first, elves.len() as int),
{
    let mut count: usize = 0;
    let mut j: usize = 0;
    while j < wishes.len()
        invariant
            j <= wishes@.len(),
            wishes@.len() == elves.len(),
            forall|k: int|
                0 <= k < wishes@.len() ==> noted(#[trigger] wishes@[k]) == wish(
                    elves,
                    elves[k],
                    first,
                ),
            count <= j,
            count == wishers(elves, at(p), first, j as int),
        decreases wishes@.len() - j,
    {
        assert(noted(wishes@[j as int]) == wish(elves, elves[j as int], first));
        let same = match wishes[j] {
            Some(q) => q.0 == p.0 && q.1 == p.1,
            None => false,
        };
        if same {
            count += 1;
        }
        j += 1;
    }
    count
}

/// A noted wish as a pair of mathematical integers.
pub open spec fn noted(w: Option<Elf>) -> Option<(int, int)> {
    match w {
        Some(p) => Some(at(p)),
        None => None,
    }
}

/// The places of the elves after one round in which the sides are tried
/// from `first` on.
pub open spec fn stepped(elves: Seq<(int, int)>, first: int) -> Seq<(int, int)> {
    Seq::new(elves.len(), |i: int| next_place(elves, i, first))
}

/// One round: where the elves stand after it, and whether any elf wished
/// to step.
pub fn round(elves: &Vec<Elf>, first: usize) -> (next: (Vec<Elf>, bool))
    requires
        first < 4,
        all_inner(elves@),
    ensures
        spots(next.0@) == stepped(spots(elves@), first as int),
        next.1 == restless(spots(elves@), first as int),
        apart(spots(elves@)) ==> apart(spots(next.0@)),
        forall|i: int|
            0 <= i < elves@.len() ==> -1 <= (#[trigger] next.0@[i]).0 - elves@[i].0 <= 1 && -1
                <= next.0@[i].1 - elves@[i].1 <= 1,
{
    let ghost places = spots(elves@);
    proof {
        if apart(places) {
            lemma_round_keeps_apart(places, first as int);
        }
    }
    let mut wishes: Vec<Option<Elf>> = Vec::new();
    let mut any = false;
    let mut i: usize = 0;
    while i < elves.len()
        invariant
            i <= elves@.len(),
            first < 4,
            all_inner(elves@),
            places == spots(elves@),
            wishes@.len() == i,
            forall|k: int|
                0 <= k < i ==> noted(#[trigger] wishes@[k]) == wish(places, places[k], first as int),
            forall|k: int|
                0 <= k < i ==> ((#[trigger] wishes@[k]) matches Some(p) ==> -1 <= p.0 - elves@[k].0
                    <= 1 && -1 <= p.1 - elves@[k].1 <= 1),
            any == exists|k: int|
                0 <= k < i && (#[trigger] wish(places, places[k], first as int)) is Some,
        decreases elves@.len() - i,
    {
        assert(inner(elves@[i as int]));
        assert(places[i as int] == at(elves@[i as int]));
        let place = wish_of(elves, elves[i], first);
        if place.is_some() {
            any = true;
        }
        wishes.push(place);
        i += 1;
    }
    let mut next: Vec<Elf> = Vec::new();
    let mut i: usize = 0;
    while i < elves.len()
        invariant
            i <= elves@.len(),
            places == spots(elves@),
            wishes@.len() == elves@.len(),
            forall|k: int|
                0 <= k < wishes@.len() ==> noted(#[trigger] wishes@[k]) == wish(
                    places,
                    places[k],
                    first as int,
                ),
            forall|k: int|
                0 <= k < wishes@.len() ==> ((#[trigger] wishes@[k]) matches Some(p) ==> -1 <= p.0
                    - elves@[k].0 <= 1 && -1 <= p.1 - elves@[k].1 <= 1),
            next@.len() == i,
            forall|k: int| 0 <= k < i ==> at(#[trigger] next@[k]) == next_place(places, k, first as int),
            forall|k: int|
                0 <= k < i ==> -1 <= (#[trigger] next@[k]).0 - elves@[k].0 <= 1 && -1 <= next@[k].1
                    - elves@[k].1 <= 1,
        decreases elves@.len() - i,
    {
        assert(noted(wishes@[i as int]) == wish(places, places[i as int], first as int));
        assert(places[i as int] == at(elves@[i as int]));
        let place = match wishes[i] {
            Some(p) => if count_wishers(&wishes, p, Ghost(places), Ghost(first as int)) == 1 {
                p
            } else {
                elves[i]
            },
            None => elves[i],
        };
        next.push(place);
        i += 1;
    }
    assert(spots(next@) =~= stepped(places, first as int));
    (next, any)
}

/// Whether no two elves share a place.
pub open spec fn apart(elves: Seq<(int, int)>) -> bool {
    forall|i: int, j: int| 0 <= i < j < elves.len() ==> elves[i] != elves[j]
}

/// No elf stands on the place that is chosen.
pub proof fn lemma_choice_is_free(elves: Seq<(int, int)>, p: (int, int), first: int, tried: int)
    requires
        0 <= first < 4,
        0 <= tried,
    ensures
        match choice_from(elves, p, first, tried) {
            Some(q) => !stands(elves, q.0, q.1),
            None => true,
        },
    decreases 4 - tried,
{
    if tried < 4 && !clear_towards(elves, p, (first + tried) % 4) {
        lemma_choice_is_free(elves, p, first, tried + 1);
    }
}

/// Among the first `n` elves there is at least one that wishes for a place
/// if one of them does, and at least two if two of them do.
pub proof fn lemma_wishers(elves: Seq<(int, int)>, p: (int, int), first: int, n: int, i: int, j: int)
    requires
        0 <= i < n <= elves.len(),
        wish(elves, elves[i], first) == Some(p),
        i < j,
    ensures
        wishers(elves, p, first, n) >= 1,
        j < n && wish(elves, elves[j], first) == Some(p) ==> wishers(elves, p, first, n) >= 2,
    decreases n,
{
    if i < n - 1 {
        lemma_wishers(elves, p, first, n - 1, i, j);
    }
}

/// Elves that stand apart before a round stand apart after it.
pub proof fn lemma_round_keeps_apart(elves: Seq<(int, int)>, first: int)
    requires
        0 <= first < 4,
        apart(elves),
    ensures
        apart(stepped(elves, first)),
{
    let next = stepped(elves, first);
    let n = elves.len() as int;
    assert forall|i: int, j: int| 0 <= i < j < next.len() implies next[i] != next[j] by {
        let wi = wish(elves, elves[i], first);
        let wj = wish(elves, elves[j], first);
        let moves_i = wi is Some && wishers(elves, wi->0, first, n) == 1;
        let moves_j = wj is Some && wishers(elves, wj->0, first, n) == 1;
        if moves_i {
            lemma_choice_is_free(elves, elves[i], first, 0);
        }
        if moves_j {
            lemma_choice_is_free(elves, elves[j], first, 0);
        }
        if moves_i && moves_j && wi == wj {
            lemma_wishers(elves, wi->0, first, n, i, j);
        }
    }
}

/// The places of the elves after `n` rounds. In the first round the sides
/// are tried from side 0 on, and in each round after it from the next
/// side on.
pub open spec fn after_rounds(elves: Seq<(int, int)>, n: nat) -> Seq<(int, int)>
    decreases n,
{
    if n == 0 {
        elves
    } else {
        stepped(after_rounds(elves, (n - 1) as nat), (n - 1) % 4)
    }
}

/// Whether no elf wishes to step in the round that follows the first `n`.
pub open spec fn still_after(elves: Seq<(int, int)>, n: nat) -> bool {
    !restless(after_rounds(elves, n), (n % 4) as int)
}

/// Whether every elf is more than `rounds` places away from the edge of
/// the machine's integers.
pub open spec fn roomy(elves: Seq<Elf>, rounds: int) -> bool {
    forall|i: int|
        0 <= i < elves.len() ==> isize::MIN + rounds < (#[trigger] elves[i]).0 < isize::MAX
            - rounds && isize::MIN + rounds < elves[i].1 < isize::MAX - rounds
}

/// Where the elves stand after the given number of rounds.
pub fn spread(elves: Vec<Elf>, rounds: usize) -> (stood: Vec<Elf>)
    requires
        roomy(elves@, rounds as int),
    ensures
        spots(stood@) == after_rounds(spots(elves@), rounds as nat),
        apart(spots(elves@)) ==> apart(spots(stood@)),
{
    let mut stood = elves;
    let mut n: usize = 0;
    while n < rounds
        invariant
            n <= rounds,
            stood@.len() == elves@.len(),
            roomy(stood@, rounds - n),
            spots(stood@) == after_rounds(spots(elves@), n as nat),
            apart(spots(elves@)) ==> apart(spots(stood@)),
        decreases rounds - n,
    {
        let ghost before = stood@;
        let (next, _) = round(&stood, n % 4);
        proof {
            assert(spots(next@).len() == spots(before).len());
            assert forall|i: int| 0 <= i < next@.len() implies isize::MIN + (rounds - n - 1) < (
            #[trigger] next@[i]).0 < isize::MAX - (rounds - n - 1) && isize::MIN + (rounds - n - 1)
                < next@[i].1 < isize::MAX - (rounds - n - 1) by {
                assert(isize::MIN + (rounds - n) < before[i].0);
            }
        }
        stood = next;
        n += 1;
    }
    stood
}

/// The number of the first round in which no elf wishes to step, the
/// rounds counted from 1; `None` if there is none among the first `limit`
/// rounds.
pub fn rounds_until_still(elves: Vec<Elf>, limit: usize) -> (rounds: Option<usize>)
    requires
        roomy(elves@, limit as int),
    ensures
        match rounds {
            Some(r) => 1 <= r <= limit && still_after(spots(elves@), (r - 1) as nat) && forall|
                n: nat,
            | n < r - 1 ==> !#[trigger] still_after(spots(elves@), n),
            None => forall|n: nat| n < limit ==> !#[trigger] still_after(spots(elves@), n),
        },
{
    let mut stood = elves;
    let mut n: usize = 0;
    while n < limit
        invariant
            n <= limit,
            stood@.len() == elves@.len(),
            roomy(stood@, limit - n),
            spots(stood@) == after_rounds(spots(elves@), n as nat),
            forall|k: nat| k < n ==> !#[trigger] still_after(spots(elves@), k),
        decreases limit - n,
    {
        let ghost before = stood@;
        let (next, any) = round(&stood, n % 4);
        if !any {
            return Some(n + 1);
        }
        proof {
            assert(spots(next@).len() == spots(before).len());
            assert forall|i: int| 0 <= i < next@.len() implies isize::MIN + (limit - n - 1) < (
            #[trigger] next@[i]).0 < isize::MAX - (limit - n - 1) && isize::MIN + (limit - n - 1)
                < next@[i].1 < isize::MAX - (limit - n - 1) by {
                assert(isize::MIN + (limit - n) < before[i].0);
            }
        }
        stood = next;
        n += 1;
    }
    None
}

/// The elves that the first `n` bytes of row `y` show: one at each `#`.
pub open spec fn elves_in_row(row: Seq<u8>, y: int, n: int) -> Seq<(int, int)>
    decreases n,
{
    if n <= 0 {
        Seq::empty()
    } else if row[n - 1] == 35 {
        elves_in_row(row, y, n - 1).push((n - 1, y))
    } else {
        elves_in_row(row, y, n - 1)
    }
}

/// The elves that the first `n` rows show, row by row.
pub open spec fn elves_in(rows: Seq<Vec<u8>>, n: int) -> Seq<(int, int)>
    decreases n,
{
    if n <= 0 {
        Seq::empty()
    } else {
        elves_in(rows, n - 1) + elves_in_row(rows[n - 1]@, n - 1, rows[n - 1]@.len() as int)
    }
}

/// The elves that the rows of a map show: one at each `#`, at the column
/// and row where it stands.
pub fn elves_of(rows: &Vec<Vec<u8>>) -> (elves: Vec<Elf>)
    requires
        rows@.len() <= isize::MAX,
        forall|y: int| 0 <= y < rows@.len() ==> (#[trigger] rows@[y])@.len() <= isize::MAX,
    ensures
        spots(elves@) == elves_in(rows@, rows@.len() as int),
{
    let mut elves: Vec<Elf> = Vec::new();
    let mut y: usize = 0;
    assert(spots(elves@) =~= elves_in(rows@, 0));
    while y < rows.len()
        invariant
            y <= rows@.len(),
            rows@.len() <= isize::MAX,
            forall|k: int| 0 <= k < rows@.len() ==> (#[trigger] rows@[k])@.len() <= isize::MAX,
            spots(elves@) == elves_in(rows@, y as int),
        decreases rows@.len() - y,
    {
        let ghost before = spots(elves@);
        let mut x: usize = 0;
        assert(spots(elves@) =~= before + elves_in_row(rows@[y as int]@, y as int, 0));
        while x < rows[y].len()
            invariant
                y < rows@.len(),
                x <= rows@[y as int]@.len(),
                rows@.len() <= isize::MAX,
                rows@[y as int]@.len() <= isize::MAX,
                spots(elves@) == before + elves_in_row(rows@[y as int]@, y as int, x as int),
            decreases rows@[y as int]@.len() - x,
        {
            if rows[y][x] == 35 {
                let ghost listed = spots(elves@);
                elves.push((x as isize, y as isize));
                assert(spots(elves@) =~= listed.push((x as int, y as int)));
                assert(listed.push((x as int, y as int)) =~= before + elves_in_row(
                    rows@[y as int]@,
                    y as int,
                    x + 1,
                ));
            }
            x += 1;
        }
        y += 1;
    }
    elves
}

} // verus!
