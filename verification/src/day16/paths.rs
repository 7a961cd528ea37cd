//! The shortest ways between all valves, found by letting one valve after
//! the other serve as a stop on the way.

use vstd::prelude::*;
use crate::day16::Valve;

verus! {

/// The sum of two distances, the greatest number standing for "no way".
pub open spec fn far_sum(a: int, b: int) -> int {
    if a + b > usize::MAX {
        usize::MAX as int
    } else {
        a + b
    }
}

/// The length of the shortest way from `i` to `j` that stops at none but
/// the first `k` valves, `direct` holding the lengths of the ways without
/// a stop.
pub open spec fn shortest(direct: Seq<Seq<usize>>, k: nat, i: int, j: int) -> int
    decreases k,
{
    if k == 0 {
        direct[i][j] as int
    } else {
        let before = shortest(direct, (k - 1) as nat, i, j);
        let over = far_sum(
            shortest(direct, (k - 1) as nat, i, k - 1),
            shortest(direct, (k - 1) as nat, k - 1, j),
        );
        if before > over {
            over
        } else {
            before
        }
    }
}

/// The table is a square of the given size.
pub open spec fn is_square(table: Seq<Vec<usize>>, n: int) -> bool {
    &&& table.len() == n
    &&& forall|i: int| 0 <= i < n ==> (#[trigger] table[i])@.len() == n
}

/// From a valve to itself no way is needed.
pub open spec fn stays_put(direct: Seq<Seq<usize>>) -> bool {
    forall|i: int| 0 <= i < direct.len() ==> (#[trigger] direct[i])[i] == 0
}

/// A shortest way is a distance, and more stops make it no longer.
pub proof fn lemma_shortest_bounds(direct: Seq<Seq<usize>>, k: nat, i: int, j: int)
    ensures
        0 <= shortest(direct, k, i, j) <= usize::MAX,
        k > 0 ==> shortest(direct, k, i, j) <= shortest(direct, (k - 1) as nat, i, j),
    decreases k,
{
    if k > 0 {
        lemma_shortest_bounds(direct, (k - 1) as nat, i, j);
        lemma_shortest_bounds(direct, (k - 1) as nat, i, k - 1);
        lemma_shortest_bounds(direct, (k - 1) as nat, k - 1, j);
    }
}

/// From a valve to itself the shortest way has no length, whatever the
/// stops.
pub proof fn lemma_shortest_stays(direct: Seq<Seq<usize>>, k: nat, i: int)
    requires
        stays_put(direct),
        0 <= i < direct.len(),
    ensures
        shortest(direct, k, i, i) == 0,
    decreases k,
{
    if k > 0 {
        lemma_shortest_stays(direct, (k - 1) as nat, i);
        lemma_shortest_bounds(direct, k, i, i);
    }
}

/// A way to or from the valve that is next allowed as a stop gains
/// nothing by stopping there.
pub proof fn lemma_stop_itself(direct: Seq<Seq<usize>>, k: nat, i: int)
    requires
        stays_put(direct),
        0 <= k < direct.len(),
        0 <= i < direct.len(),
    ensures
        shortest(direct, k + 1, i, k as int) == shortest(direct, k, i, k as int),
        shortest(direct, k + 1, k as int, i) == shortest(direct, k, k as int, i),
{
    lemma_shortest_stays(direct, k, k as int);
    lemma_shortest_bounds(direct, k, i, k as int);
    lemma_shortest_bounds(direct, k, k as int, i);
}

/// The sum of two distances.
pub fn add_far(a: usize, b: usize) -> (sum: usize)
    ensures
        sum == far_sum(a as int, b as int),
{
    if a > usize::MAX - b {
        usize::MAX
    } else {
        a + b
    }
}

/// Lets valve `k` serve as a stop: shortens every way that is shorter
/// over `k`.
fn relax_over(dists: &mut Vec<Vec<usize>>, k: usize, Ghost(direct): Ghost<Seq<Seq<usize>>>)
    requires
        is_square(old(dists)@, old(dists)@.len() as int),
        direct.len() == old(dists)@.len(),
        stays_put(direct),
        k < old(dists)@.len(),
        forall|i: int, j: int|
            0 <= i < old(dists)@.len() && 0 <= j < old(dists)@.len() ==> #[trigger] old(dists)@[i]@[j] == shortest(direct, k as nat, i, j),
    ensures
        is_square(final(dists)@, old(dists)@.len() as int),
        forall|i: int, j: int|
            0 <= i < old(dists)@.len() && 0 <= j < old(dists)@.len() ==> #[trigger] final(dists)@[i]@[j] == shortest(direct, (k + 1) as nat, i, j),
{
    let n = dists.len();
    let mut i: usize = 0;
    while i < n
        invariant
            i <= n,
            n == dists@.len(),
            k < n,
            direct.len() == n,
            stays_put(direct),
            is_square(dists@, n as int),
            forall|a: int, b: int|
                0 <= a < n && 0 <= b < n ==> #[trigger] dists@[a]@[b] == if a < i {
                    shortest(direct, (k + 1) as nat, a, b)
                } else {
                    shortest(direct, k as nat, a, b)
                },
        decreases n - i,
    {
        let mut j: usize = 0;
        while j < n
            invariant
                j <= n,
                i < n,
                n == dists@.len(),
                k < n,
                direct.len() == n,
                stays_put(direct),
                is_square(dists@, n as int),
                forall|a: int, b: int|
                    0 <= a < n && 0 <= b < n ==> #[trigger] dists@[a]@[b] == if a < i || (a == i
                        && b < j) {
                        shortest(direct, (k + 1) as nat, a, b)
                    } else {
                        shortest(direct, k as nat, a, b)
                    },
            decreases n - j,
        {
            proof {
                lemma_stop_itself(direct, k as nat, i as int);
                lemma_stop_itself(direct, k as nat, j as int);
                assert(dists@[i as int]@[k as int] == shortest(direct, k as nat, i as int, k as int));
                assert(dists@[k as int]@[j as int] == shortest(direct, k as nat, k as int, j as int));
            }
            let over = add_far(dists[i][k], dists[k][j]);
            if dists[i][j] > over {
                dists[i][j] = over;
            }
            j += 1;
        }
        i += 1;
    }
}

/// The place of the first of the names from `from` on that is the given
/// name, or the number of names if none is.
pub open spec fn name_place(names: Seq<String>, name: Seq<char>, from: int) -> int
    decreases names.len() - from,
{
    if from >= names.len() {
        names.len() as int
    } else if names[from]@ == name {
        from
    } else {
        name_place(names, name, from + 1)
    }
}

/// Whether one of the first `count` tunnels of valve `i` leads to valve
/// `j`.
pub open spec fn leads(valves: Seq<Valve>, names: Seq<String>, i: int, j: int, count: int) -> bool {
    exists|t: int|
        0 <= t < count && name_place(names, (#[trigger] valves[i].neighbours@[t])@, 0) == j
}

/// The length of the way from valve `i` to valve `j` without a stop:
/// nothing to itself, one along a tunnel, and "no way" else.
pub open spec fn direct_way(valves: Seq<Valve>, names: Seq<String>, i: int, j: int) -> usize {
    if i == j {
        0
    } else if leads(valves, names, i, j, valves[i].neighbours@.len() as int) {
        1
    } else {
        usize::MAX
    }
}

/// The lengths of the ways without a stop between all valves.
pub open spec fn direct_ways(valves: Seq<Valve>, names: Seq<String>) -> Seq<Seq<usize>> {
    Seq::new(
        valves.len(),
        |i: int| Seq::new(valves.len(), |j: int| direct_way(valves, names, i, j)),
    )
}

/// Every tunnel leads to a valve that has a name in the list.
pub open spec fn tunnels_known(valves: Seq<Valve>, names: Seq<String>) -> bool {
    forall|i: int, t: int|
        0 <= i < valves.len() && 0 <= t < valves[i].neighbours@.len() ==> name_place(
            names,
            (#[trigger] valves[i].neighbours@[t])@,
            0,
        ) < valves.len()
}

/// The place of the first of the names that is the given name.
pub fn find_name(names: &Vec<String>, name: &String) -> (place: usize)
    ensures
        place == name_place(names@, name@, 0),
        place <= names@.len(),
{
    let mut i: usize = 0;
    while i < names.len()
        invariant
            i <= names@.len(),
            name_place(names@, name@, 0) == name_place(names@, name@, i as int),
        decreases names@.len() - i,
    {
        if names[i] == *name {
            return i;
        }
        i += 1;
    }
    i
}

/// A row of `n` times "no way".
pub fn no_ways(n: usize) -> (row: Vec<usize>)
    ensures
        row@.len() == n,
        forall|j: int| 0 <= j < n ==> #[trigger] row@[j] == usize::MAX,
{
    let mut row: Vec<usize> = Vec::new();
    let mut j: usize = 0;
    while j < n
        invariant
            j <= n,
            row@.len() == j,
            forall|c: int| 0 <= c < j ==> #[trigger] row@[c] == usize::MAX,
        decreases n - j,
    {
        row.push(usize::MAX);
        j += 1;
    }
    row
}

/// The lengths of the ways without a stop from valve `i`; `None` where a
/// tunnel leads to a valve without a name in the list.
pub fn direct_row(valves: &Vec<Valve>, names: &Vec<String>, i: usize) -> (row: Option<Vec<usize>>)
    requires
        i < valves@.len(),
    ensures
        match row {
            Some(r) => r@.len() == valves@.len() && (forall|j: int|
                0 <= j < valves@.len() ==> #[trigger] r@[j] == direct_way(
                    valves@,
                    names@,
                    i as int,
                    j,
                )) && (forall|t: int|
                0 <= t < valves@[i as int].neighbours@.len() ==> name_place(
                    names@,
                    (#[trigger] valves@[i as int].neighbours@[t])@,
                    0,
                ) < valves@.len()),
            None => !tunnels_known(valves@, names@),
        },
{
    let n = valves.len();
    let mut row = no_ways(n);
    let valve = &valves[i];
    let mut t: usize = 0;
    while t < valve.neighbours.len()
        invariant
            t <= valve.neighbours@.len(),
            i < n,
            n == valves@.len(),
            *valve == valves@[i as int],
            row@.len() == n,
            forall|j: int|
                0 <= j < n ==> #[trigger] row@[j] == if leads(valves@, names@, i as int, j, t as int) {
                    1usize
                } else {
                    usize::MAX
                },
            forall|u: int|
                0 <= u < t ==> name_place(names@, (#[trigger] valves@[i as int].neighbours@[u])@, 0)
                    < n,
        decreases valve.neighbours@.len() - t,
    {
        let j = find_name(names, &valve.neighbours[t]);
        if j >= n {
            return None;
        }
        let ghost before = row@;
        row[j] = 1;
        proof {
            assert forall|c: int| 0 <= c < n implies #[trigger] row@[c] == if leads(
                valves@,
                names@,
                i as int,
                c,
                t + 1,
            ) {
                1usize
            } else {
                usize::MAX
            } by {
                if leads(valves@, names@, i as int, c, t as int) {
                    let u = choose|u: int|
                        0 <= u < t && name_place(
                            names@,
                            (#[trigger] valves@[i as int].neighbours@[u])@,
                            0,
                        ) == c;
                    assert(0 <= u < t + 1);
                }
                if leads(valves@, names@, i as int, c, t + 1) && !leads(
                    valves@,
                    names@,
                    i as int,
                    c,
                    t as int,
                ) {
                    let u = choose|u: int|
                        0 <= u < t + 1 && name_place(
                            names@,
                            (#[trigger] valves@[i as int].neighbours@[u])@,
                            0,
                        ) == c;
                    assert(u == t);
                }
                if c == j {
                    assert(name_place(names@, valves@[i as int].neighbours@[t as int]@, 0) == c);
                }
            }
        }
        t += 1;
    }
    row[i] = 0;
    Some(row)
}

/// The lengths of the shortest ways between all valves, the greatest
/// number where there is no way; `None` where a tunnel leads to a valve
/// without a name in the list.
pub fn calculate_all_shortest_distances(valves: &Vec<Valve>, names: &Vec<String>) -> (found: Option<
    Vec<Vec<usize>>,
>)
    ensures
        match found {
            Some(dists) => tunnels_known(valves@, names@) && is_square(
                dists@,
                valves@.len() as int,
            ) && (forall|i: int, j: int|
                0 <= i < valves@.len() && 0 <= j < valves@.len() ==> #[trigger] dists@[i]@[j]
                    == shortest(direct_ways(valves@, names@), valves@.len(), i, j)),
            None => !tunnels_known(valves@, names@),
        },
{
    let n = valves.len();
    let ghost direct = direct_ways(valves@, names@);
    let mut dists: Vec<Vec<usize>> = Vec::new();
    let mut i: usize = 0;
    while i < n
        invariant
            i <= n,
            n == valves@.len(),
            direct == direct_ways(valves@, names@),
            dists@.len() == i,
            forall|a: int| 0 <= a < i ==> (#[trigger] dists@[a])@.len() == n,
            forall|a: int, b: int|
                0 <= a < i && 0 <= b < n ==> #[trigger] dists@[a]@[b] == direct[a][b],
            forall|a: int, t: int|
                0 <= a < i && 0 <= t < valves@[a].neighbours@.len() ==> name_place(
                    names@,
                    (#[trigger] valves@[a].neighbours@[t])@,
                    0,
                ) < n,
        decreases n - i,
    {
        match direct_row(valves, names, i) {
            Some(row) => {
                dists.push(row);
            },
            None => {
                return None;
            },
        }
        i += 1;
    }
    let mut k: usize = 0;
    while k < n
        invariant
            k <= n,
            n == valves@.len(),
            direct == direct_ways(valves@, names@),
            direct.len() == n,
            stays_put(direct),
            is_square(dists@, n as int),
            tunnels_known(valves@, names@),
            forall|a: int, b: int|
                0 <= a < n && 0 <= b < n ==> #[trigger] dists@[a]@[b] == shortest(
                    direct,
                    k as nat,
                    a,
                    b,
                ),
        decreases n - k,
    {
        relax_over(&mut dists, k, Ghost(direct));
        k += 1;
    }
    Some(dists)
}

} // verus!
