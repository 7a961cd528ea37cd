//! How much of a row the sensors cover together, counted with a union of
//! ranges.

use vstd::prelude::*;
use vstd::set_lib::{lemma_int_range, lemma_set_disjoint_lens, set_int_range};
use range_union_find::{IntRangeUnionFind, RangeOperationError};
use crate::day15::Sensor;

verus! {

/// A union of ranges of integers: `range_union_find::IntRangeUnionFind`.
/// What it holds is known only through `union_points`.
#[verifier::external_body]
pub struct RangeUnion {
    inner: IntRangeUnionFind<isize>,
}

#[verifier::external_type_specification]
#[verifier::external_body]
pub struct ExRangeOperationError(RangeOperationError);

/// The integers that lie in one of the ranges of the union.
pub uninterp spec fn union_points(u: RangeUnion) -> Set<int>;

/// Whether the integer lies within the middle half of the machine's
/// integers, where the lengths of ranges and their sums fit.
pub open spec fn in_window(x: int) -> bool {
    isize::MIN / 2 < x < isize::MAX / 2
}

/// The integers from `lo` to `hi`, both included.
pub open spec fn span(lo: int, hi: int) -> Set<int> {
    set_int_range(lo, hi + 1)
}

/// The integers that lie in one of the ranges.
pub open spec fn points_of(spans: Seq<(isize, isize)>) -> Set<int>
    decreases spans.len(),
{
    if spans.len() == 0 {
        Set::empty()
    } else {
        points_of(spans.drop_last()) + span(spans.last().0 as int, spans.last().1 as int)
    }
}

/// No range is empty, and each one ends before the next one begins.
pub open spec fn ordered_apart(spans: Seq<(isize, isize)>) -> bool {
    &&& forall|i: int| 0 <= i < spans.len() ==> (#[trigger] spans[i]).0 <= spans[i].1
    &&& forall|i: int, j: int|
        0 <= i < j < spans.len() ==> (#[trigger] spans[i]).1 < (#[trigger] spans[j]).0
}

/// The lengths of the ranges added up.
pub open spec fn total_len(spans: Seq<(isize, isize)>) -> int
    decreases spans.len(),
{
    if spans.len() == 0 {
        0
    } else {
        total_len(spans.drop_last()) + (spans.last().1 - spans.last().0 + 1)
    }
}

/// An empty union. `IntRangeUnionFind::new` makes a union without ranges.
#[verifier::external_body]
fn new_union() -> (u: RangeUnion)
    ensures
        union_points(u) == Set::<int>::empty(),
{
    RangeUnion { inner: IntRangeUnionFind::new() }
}

/// Adds the integers from `lo` to `hi`. `IntRangeUnionFind::insert_range`
/// adds an inclusive range as it is given and refuses, leaving the union as
/// it was, exactly a range whose start lies after its end. On its way it
/// adds up the lengths of the ranges that the new one meets, in the
/// integers of the ranges: so all of them are to lie within the window.
#[verifier::external_body]
fn insert_span(u: &mut RangeUnion, lo: isize, hi: isize) -> (done: Result<
    (),
    RangeOperationError,
>)
    requires
        in_window(lo as int),
        in_window(hi as int),
        forall|x: int| union_points(*old(u)).contains(x) ==> in_window(x),
    ensures
        lo <= hi ==> done is Ok && union_points(*final(u)) == union_points(*old(u)) + span(
            lo as int,
            hi as int,
        ),
        lo > hi ==> done is Err && union_points(*final(u)) == union_points(*old(u)),
{
    u.inner.insert_range(&(lo..=hi))
}

/// The ranges of the union. `IntRangeUnionFind::into_collection` hands out
/// the ranges it keeps, which it keeps in ascending order, none of them
/// empty and each ending before the next begins.
#[verifier::external_body]
fn spans_of(u: RangeUnion) -> (spans: Vec<(isize, isize)>)
    ensures
        ordered_apart(spans@),
        points_of(spans@) == union_points(u),
{
    let ranges: Vec<std::ops::RangeInclusive<isize>> = u.inner.into_collection();
    ranges.iter().map(|r| (*r.start(), *r.end())).collect()
}

/// The integers of row `y` that one of the first `n` sensors covers.
pub open spec fn covered_by_first(sensors: Seq<Sensor>, n: int, y: int) -> Set<int> {
    Set::new(|x: int| exists|i: int| 0 <= i < n && (#[trigger] sensors[i]).covers_at(x, y))
}

/// The integers of row `y` that one of the sensors covers.
pub open spec fn covered_in_row(sensors: Seq<Sensor>, y: int) -> Set<int> {
    covered_by_first(sensors, sensors.len() as int, y)
}

/// Ranges that lie apart hold as many integers as their lengths add up to,
/// all of them up to the end of the last range.
pub proof fn lemma_points_counted(spans: Seq<(isize, isize)>)
    requires
        ordered_apart(spans),
    ensures
        points_of(spans).finite(),
        points_of(spans).len() == total_len(spans),
        forall|x: int|
            points_of(spans).contains(x) ==> spans.len() > 0 && spans[0].0 <= x <= spans.last().1,
        spans.len() > 0 ==> total_len(spans) <= spans.last().1 - spans[0].0 + 1,
    decreases spans.len(),
{
    if spans.len() > 0 {
        let front = spans.drop_last();
        let last = spans.last();
        assert(ordered_apart(front)) by {
            assert forall|i: int| 0 <= i < front.len() implies (#[trigger] front[i]).0
                <= front[i].1 by {
                assert(front[i] == spans[i]);
            }
            assert forall|i: int, j: int| 0 <= i < j < front.len() implies (#[trigger] front[i]).1
                < (#[trigger] front[j]).0 by {
                assert(front[i] == spans[i] && front[j] == spans[j]);
            }
        }
        lemma_points_counted(front);
        lemma_int_range(last.0 as int, last.1 + 1);
        let a = points_of(front);
        let b = span(last.0 as int, last.1 as int);
        assert(a.disjoint(b)) by {
            assert forall|x: int| !(a.contains(x) && b.contains(x)) by {
                if a.contains(x) && b.contains(x) {
                    assert(front.last() == spans[front.len() - 1]);
                    assert(spans[front.len() - 1].1 < spans[spans.len() - 1].0);
                }
            }
        }
        lemma_set_disjoint_lens(a, b);
        if front.len() > 0 {
            assert(front[0] == spans[0]);
            assert(front.last() == spans[front.len() - 1]);
            assert(spans[front.len() - 1].1 < spans[spans.len() - 1].0);
        }
    }
}

/// How many places of row `target_row` the sensors cover together.
pub fn total_coverage(sensors: &Vec<Sensor>, target_row: isize) -> (total: u128)
    requires
        forall|i: int| 0 <= i < sensors@.len() ==> (#[trigger] sensors@[i]).in_window(),
    ensures
        covered_in_row(sensors@, target_row as int).finite(),
        total == covered_in_row(sensors@, target_row as int).len(),
{
    let mut unioned_ranges = new_union();
    let mut k: usize = 0;
    assert(covered_by_first(sensors@, 0, target_row as int) =~= Set::<int>::empty());
    while k < sensors.len()
        invariant
            k <= sensors@.len(),
            forall|i: int| 0 <= i < sensors@.len() ==> (#[trigger] sensors@[i]).in_window(),
            union_points(unioned_ranges) == covered_by_first(sensors@, k as int, target_row as int),
        decreases sensors@.len() - k,
    {
        let ghost before = covered_by_first(sensors@, k as int, target_row as int);
        let ghost after = covered_by_first(sensors@, k + 1, target_row as int);
        assert(sensors@[k as int].in_window());
        match sensors[k].covered_range_at(target_row) {
            Some((lo, hi)) => {
                proof {
                    assert(sensors@[k as int].covers_at(lo as int, target_row as int));
                    assert(sensors@[k as int].covers_at(hi as int, target_row as int));
                    assert forall|x: int| before.contains(x) implies in_window(x) by {
                        let i = choose|i: int|
                            0 <= i < k && (#[trigger] sensors@[i]).covers_at(x, target_row as int);
                        assert(sensors@[i].in_window());
                    }
                }
                let done = insert_span(&mut unioned_ranges, lo, hi);
                proof {
                    assert forall|x: int| after.contains(x) <==> (before + span(
                        lo as int,
                        hi as int,
                    )).contains(x) by {
                        if after.contains(x) {
                            let i = choose|i: int|
                                0 <= i < k + 1 && (#[trigger] sensors@[i]).covers_at(
                                    x,
                                    target_row as int,
                                );
                            if i < k {
                                assert(before.contains(x));
                            }
                        }
                        if before.contains(x) {
                            let i = choose|i: int|
                                0 <= i < k && (#[trigger] sensors@[i]).covers_at(
                                    x,
                                    target_row as int,
                                );
                            assert(0 <= i < k + 1);
                        }
                        if span(lo as int, hi as int).contains(x) {
                            assert(sensors@[k as int].covers_at(x, target_row as int));
                        }
                    }
                    assert(after =~= before + span(lo as int, hi as int));
                }
            },
            None => {
                proof {
                    assert forall|x: int| after.contains(x) <==> before.contains(x) by {
                        if after.contains(x) {
                            let i = choose|i: int|
                                0 <= i < k + 1 && (#[trigger] sensors@[i]).covers_at(
                                    x,
                                    target_row as int,
                                );
                            assert(i < k);
                        }
                        if before.contains(x) {
                            let i = choose|i: int|
                                0 <= i < k && (#[trigger] sensors@[i]).covers_at(
                                    x,
                                    target_row as int,
                                );
                            assert(0 <= i < k + 1);
                        }
                    }
                    assert(after =~= before);
                }
            },
        }
        k += 1;
    }
    let spans = spans_of(unioned_ranges);
    proof {
        lemma_points_counted(spans@);
    }
    let mut total: u128 = 0;
    let mut i: usize = 0;
    assert(spans@.subrange(0, 0) =~= Seq::<(isize, isize)>::empty());
    while i < spans.len()
        invariant
            i <= spans@.len(),
            ordered_apart(spans@),
            total == total_len(spans@.subrange(0, i as int)),
        decreases spans@.len() - i,
    {
        let (lo, hi) = spans[i];
        proof {
            let shorter = spans@.subrange(0, i as int);
            let longer = spans@.subrange(0, i + 1);
            assert(longer.drop_last() =~= shorter);
            assert(longer.last() == spans@[i as int]);
            assert(ordered_apart(longer)) by {
                assert forall|a: int| 0 <= a < longer.len() implies (#[trigger] longer[a]).0
                    <= longer[a].1 by {
                    assert(longer[a] == spans@[a]);
                }
                assert forall|a: int, b: int| 0 <= a < b < longer.len() implies (
                #[trigger] longer[a]).1 < (#[trigger] longer[b]).0 by {
                    assert(longer[a] == spans@[a] && longer[b] == spans@[b]);
                }
            }
            lemma_points_counted(longer);
            assert(longer[0] == spans@[0]);
        }
        total = total + ((hi as i128 - lo as i128) as u128 + 1);
        i += 1;
    }
    assert(spans@.subrange(0, i as int) =~= spans@);
    total
}

} // verus!
