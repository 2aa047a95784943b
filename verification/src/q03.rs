//! Crates by size: the sum of the smallest distinct sizes, and the greatest number of
//! crates of one size.

use crate::text::{parse_values, split, token_value};
use itertools::Itertools;
use vstd::prelude::*;
use vstd::relations::{sorted_by, total_ordering};
use vstd::seq_lib::{lemma_sorted_unique, to_multiset_build, to_multiset_contains, to_multiset_len};
use vstd::string::StringSliceAdditionalSpecFns;

verus! {

/// The order of the sizes.
pub open spec fn size_order() -> spec_fn(i32, i32) -> bool {
    |a: i32, b: i32| a <= b
}

/// The sizes in ascending order.
pub open spec fn ascending(sizes: Seq<i32>) -> Seq<i32> {
    sizes.sort_by(size_order())
}

/// Each size with the count `count` beside it.
pub open spec fn tagged(sizes: Seq<i32>, count: i32) -> Seq<(i32, i32)> {
    Seq::new(sizes.len(), |i: int| (sizes[i], count))
}

/// The sizes of the items, without their counts.
pub open spec fn sizes_of(items: Seq<(i32, i32)>) -> Seq<i32> {
    Seq::new(items.len(), |i: int| items[i].0)
}

/// What becomes of two neighbouring items: where they have the same size they become one
/// item, whose count is that of the first and `step` more; otherwise both stay.
pub open spec fn spec_merge(l: (i32, i32), r: (i32, i32), step: i32) -> Result<
    (i32, i32),
    ((i32, i32), (i32, i32)),
> {
    if l.0 == r.0 {
        Ok((l.0, (l.1 + step) as i32))
    } else {
        Err((l, r))
    }
}

/// The items with each run of neighbours of the same size merged into one item, from
/// left to right: the merged item meets the next item in turn.
pub open spec fn coalesced(items: Seq<(i32, i32)>, step: i32) -> Seq<(i32, i32)>
    decreases items.len(),
{
    if items.len() == 0 {
        Seq::empty()
    } else {
        let before = coalesced(items.drop_last(), step);
        if before.len() == 0 {
            seq![items.last()]
        } else {
            match spec_merge(before.last(), items.last(), step) {
                Ok(merged) => before.drop_last().push(merged),
                Err((l, r)) => before.drop_last().push(l).push(r),
            }
        }
    }
}

/// The sum of the sizes.
pub open spec fn sum_of(sizes: Seq<i32>) -> int
    decreases sizes.len(),
{
    if sizes.len() == 0 {
        0
    } else {
        sum_of(sizes.drop_last()) + sizes.last()
    }
}

/// The distinct sizes in ascending order.
pub open spec fn distinct_sizes(sizes: Seq<i32>) -> Seq<i32> {
    sizes_of(coalesced(tagged(ascending(sizes), 0), 0))
}

/// The sum of the `upto` smallest distinct sizes, or of all distinct sizes where there
/// are fewer.
pub open spec fn smallest_sum(sizes: Seq<i32>, upto: int) -> int {
    let distinct = distinct_sizes(sizes);
    sum_of(
        distinct.take(
            if upto < distinct.len() {
                upto
            } else {
                distinct.len() as int
            },
        ),
    )
}

/// The greatest count among the items; 0 where there is no item.
pub open spec fn greatest_count(items: Seq<(i32, i32)>) -> int
    decreases items.len(),
{
    if items.len() == 0 {
        0
    } else if items.len() == 1 || items.last().1 >= greatest_count(items.drop_last()) {
        items.last().1 as int
    } else {
        greatest_count(items.drop_last())
    }
}

/// The greatest number of crates of one size.
pub open spec fn longest_run(sizes: Seq<i32>) -> int {
    greatest_count(coalesced(tagged(ascending(sizes), 1), 1))
}

/// Every piece is a number within `i32`.
pub open spec fn all_sizes(pieces: Seq<Seq<u8>>) -> bool {
    forall|i: int|
        0 <= i < pieces.len() ==> {
            &&& token_value(#[trigger] pieces[i]) is Some
            &&& i32::MIN <= token_value(pieces[i]).unwrap() <= i32::MAX
        }
}

/// The sizes that the pieces stand for.
pub open spec fn size_values(pieces: Seq<Seq<u8>>) -> Seq<i32> {
    Seq::new(pieces.len(), |i: int| token_value(pieces[i]).unwrap() as i32)
}

/// The order of the sizes is a total order.
proof fn lemma_size_order_total()
    ensures
        total_ordering(size_order()),
{
}

/// The sizes stand in ascending order.
pub open spec fn is_ascending(sizes: Seq<i32>) -> bool {
    forall|i: int, j: int| 0 <= i <= j < sizes.len() ==> sizes[i] <= sizes[j]
}

/// How often the size occurs among the sizes.
pub open spec fn occurrences(sizes: Seq<i32>, size: i32) -> nat {
    sizes.to_multiset().count(size)
}

/// The runs of sizes in ascending order hold each size once, in ascending order, the
/// last run being that of the greatest size.
proof fn lemma_run_sizes(sizes: Seq<i32>, first: i32, step: i32)
    requires
        is_ascending(sizes),
    ensures
        coalesced(tagged(sizes, first), step).len() <= sizes.len(),
        sizes.len() > 0 ==> coalesced(tagged(sizes, first), step).len() > 0 && coalesced(
            tagged(sizes, first),
            step,
        ).last().0 == sizes.last(),
        forall|i: int, j: int|
            0 <= i < j < coalesced(tagged(sizes, first), step).len() ==> (#[trigger] coalesced(
                tagged(sizes, first),
                step,
            )[i]).0 < (#[trigger] coalesced(tagged(sizes, first), step)[j]).0,
        forall|v: i32|
            sizes.contains(v) <==> #[trigger] sizes_of(
                coalesced(tagged(sizes, first), step),
            ).contains(v),
    decreases sizes.len(),
{
    let runs = coalesced(tagged(sizes, first), step);
    if sizes.len() == 0 {
        assert forall|v: i32| sizes.contains(v) <==> #[trigger] sizes_of(runs).contains(v) by {}
    } else {
        let front = sizes.drop_last();
        let last = sizes.last();
        assert(tagged(sizes, first).drop_last() =~= tagged(front, first));
        assert(is_ascending(front)) by {
            assert forall|i: int, j: int| 0 <= i <= j < front.len() implies front[i]
                <= front[j] by {
                assert(front[i] == sizes[i] && front[j] == sizes[j]);
            }
        }
        lemma_run_sizes(front, first, step);
        let before = coalesced(tagged(front, first), step);
        if front.len() > 0 {
            assert(before.last().0 == front.last());
            assert(front.last() == sizes[sizes.len() - 2]);
            assert(sizes[sizes.len() - 2] <= sizes[sizes.len() - 1]);
        }
        assert forall|i: int, j: int| 0 <= i < j < runs.len() implies (#[trigger] runs[i]).0 < (
        #[trigger] runs[j]).0 by {
            if j < before.len() - 1 {
                assert(runs[i] == before[i] && runs[j] == before[j]);
            } else if i < before.len() - 1 {
                assert(runs[i] == before[i]);
                assert(before[i].0 < before[before.len() - 1].0);
            }
        }
        assert forall|v: i32| sizes.contains(v) <==> #[trigger] sizes_of(runs).contains(v) by {
            assert(front.contains(v) <==> sizes_of(before).contains(v));
            if sizes.contains(v) {
                let at = choose|at: int| 0 <= at < sizes.len() && sizes[at] == v;
                if at < front.len() {
                    assert(front[at] == v);
                    let k = choose|k: int| 0 <= k < before.len() && sizes_of(before)[k] == v;
                    if k < before.len() - 1 {
                        assert(sizes_of(runs)[k] == v);
                    } else if before.last().0 == last {
                        assert(sizes_of(runs)[runs.len() - 1] == v);
                    } else {
                        assert(sizes_of(runs)[runs.len() - 2] == v);
                    }
                } else {
                    assert(sizes_of(runs)[runs.len() - 1] == v);
                }
            }
            if sizes_of(runs).contains(v) {
                let k = choose|k: int| 0 <= k < runs.len() && sizes_of(runs)[k] == v;
                if runs[k].0 == last {
                    assert(sizes[sizes.len() - 1] == v);
                } else {
                    assert(sizes_of(before)[k] == v);
                    let at = choose|at: int| 0 <= at < front.len() && front[at] == v;
                    assert(sizes[at] == v);
                }
            }
        }
    }
}

/// The distinct sizes are the sizes, each once, in ascending order.
pub proof fn lemma_distinct_sizes(sizes: Seq<i32>)
    ensures
        forall|i: int, j: int|
            0 <= i < j < distinct_sizes(sizes).len() ==> distinct_sizes(sizes)[i] < distinct_sizes(
                sizes,
            )[j],
        forall|v: i32| sizes.contains(v) <==> #[trigger] distinct_sizes(sizes).contains(v),
{
    lemma_ascending(sizes);
    let sorted = ascending(sizes);
    lemma_run_sizes(sorted, 0, 0);
    let runs = coalesced(tagged(sorted, 0), 0);
    assert forall|i: int, j: int| 0 <= i < j < distinct_sizes(sizes).len() implies distinct_sizes(
        sizes,
    )[i] < distinct_sizes(sizes)[j] by {
        assert(runs[i].0 < runs[j].0);
    }
    assert forall|v: i32| sizes.contains(v) <==> #[trigger] distinct_sizes(sizes).contains(v) by {
        assert(sorted.contains(v) <==> sizes_of(runs).contains(v));
        to_multiset_contains(sizes, v);
        to_multiset_contains(sorted, v);
    }
}

/// The sizes in ascending order stand in ascending order and are the same sizes, each
/// as often as before.
pub proof fn lemma_ascending(sizes: Seq<i32>)
    ensures
        is_ascending(ascending(sizes)),
        ascending(sizes).to_multiset() == sizes.to_multiset(),
        ascending(sizes).len() == sizes.len(),
{
    lemma_size_order_total();
    sizes.lemma_sort_by_ensures(size_order());
    to_multiset_len(sizes);
    to_multiset_len(ascending(sizes));
    let sorted = ascending(sizes);
    assert forall|i: int, j: int| 0 <= i <= j < sorted.len() implies sorted[i] <= sorted[j] by {
        if i < j {
            assert(size_order()(sorted[i], sorted[j]));
        }
    }
}

/// The count of each run of sizes in ascending order, counted from 1 in steps of 1, is
/// the number of times that its size occurs.
proof fn lemma_run_counts(sizes: Seq<i32>)
    requires
        is_ascending(sizes),
        sizes.len() < i32::MAX,
    ensures
        forall|k: int|
            0 <= k < coalesced(tagged(sizes, 1), 1).len() ==> (#[trigger] coalesced(
                tagged(sizes, 1),
                1,
            )[k]).1 == occurrences(sizes, coalesced(tagged(sizes, 1), 1)[k].0),
    decreases sizes.len(),
{
    broadcast use vstd::multiset::group_multiset_axioms;

    let runs = coalesced(tagged(sizes, 1), 1);
    if sizes.len() > 0 {
        let front = sizes.drop_last();
        let last = sizes.last();
        assert(tagged(sizes, 1).drop_last() =~= tagged(front, 1));
        assert(is_ascending(front)) by {
            assert forall|i: int, j: int| 0 <= i <= j < front.len() implies front[i]
                <= front[j] by {
                assert(front[i] == sizes[i] && front[j] == sizes[j]);
            }
        }
        lemma_run_counts(front);
        lemma_run_sizes(front, 1, 1);
        let before = coalesced(tagged(front, 1), 1);
        assert(sizes =~= front.push(last));
        to_multiset_build(front, last);
        to_multiset_len(front);
        assert forall|k: int| 0 <= k < runs.len() implies (#[trigger] runs[k]).1 == occurrences(
            sizes,
            runs[k].0,
        ) by {
            if before.len() == 0 {
                assert(front.to_multiset().count(last) <= front.to_multiset().len());
            } else if before.last().0 == last {
                if k < before.len() - 1 {
                    assert(runs[k] == before[k]);
                    assert(before[k].0 < before[before.len() - 1].0);
                } else {
                    assert(before[before.len() - 1].1 == occurrences(front, last));
                    assert(front.to_multiset().count(last) <= front.to_multiset().len());
                }
            } else {
                if k < before.len() {
                    assert(runs[k] == before[k]);
                    assert(before.last().0 == front.last());
                    assert(sizes[sizes.len() - 2] <= sizes[sizes.len() - 1]);
                    if k < before.len() - 1 {
                        assert(before[k].0 < before[before.len() - 1].0);
                    }
                } else {
                    assert(!sizes_of(before).contains(last)) by {
                        if sizes_of(before).contains(last) {
                            let at = choose|at: int|
                                0 <= at < before.len() && sizes_of(before)[at] == last;
                            assert(before.last().0 == front.last());
                            assert(sizes[sizes.len() - 2] <= sizes[sizes.len() - 1]);
                            if at < before.len() - 1 {
                                assert(before[at].0 < before[before.len() - 1].0);
                            }
                        }
                    }
                    assert(!front.contains(last));
                    to_multiset_contains(front, last);
                }
            }
        }
    }
}

/// The greatest count is the count of one of the items, and no item has a greater one.
proof fn lemma_greatest_count(items: Seq<(i32, i32)>)
    requires
        items.len() > 0,
    ensures
        exists|k: int| 0 <= k < items.len() && (#[trigger] items[k]).1 == greatest_count(items),
        forall|k: int| 0 <= k < items.len() ==> (#[trigger] items[k]).1 <= greatest_count(items),
    decreases items.len(),
{
    if items.len() == 1 {
        assert(items[0].1 == greatest_count(items));
    } else {
        let front = items.drop_last();
        lemma_greatest_count(front);
        let w = choose|k: int| 0 <= k < front.len() && (#[trigger] front[k]).1 == greatest_count(
            front,
        );
        if items.last().1 >= greatest_count(front) {
            assert(items[items.len() - 1].1 == greatest_count(items));
        } else {
            assert(items[w] == front[w]);
        }
        assert forall|k: int| 0 <= k < items.len() implies (#[trigger] items[k]).1
            <= greatest_count(items) by {
            if k < front.len() {
                assert(items[k] == front[k]);
            }
        }
    }
}

/// The longest run is the number of crates of the most frequent size: some size occurs
/// that often, and none more often.
pub proof fn lemma_longest_run(sizes: Seq<i32>)
    requires
        0 < sizes.len() < i32::MAX,
    ensures
        exists|v: i32| sizes.contains(v) && #[trigger] occurrences(sizes, v) == longest_run(sizes),
        forall|v: i32| #[trigger] occurrences(sizes, v) <= longest_run(sizes),
{
    lemma_ascending(sizes);
    let sorted = ascending(sizes);
    let runs = coalesced(tagged(sorted, 1), 1);
    lemma_run_sizes(sorted, 1, 1);
    lemma_run_counts(sorted);
    lemma_greatest_count(runs);
    let k = choose|k: int| 0 <= k < runs.len() && (#[trigger] runs[k]).1 == greatest_count(runs);
    let most = runs[k].0;
    assert(sizes_of(runs)[k] == most);
    assert(sizes_of(runs).contains(most));
    assert(sorted.contains(most));
    to_multiset_contains(sorted, most);
    to_multiset_contains(sizes, most);
    assert(occurrences(sizes, most) == longest_run(sizes));
    assert forall|v: i32| #[trigger] occurrences(sizes, v) <= longest_run(sizes) by {
        to_multiset_contains(sorted, v);
        if sorted.contains(v) {
            assert(sizes_of(runs).contains(v));
            let at = choose|at: int| 0 <= at < runs.len() && sizes_of(runs)[at] == v;
            assert(runs[at].1 == occurrences(sorted, runs[at].0));
        }
    }
}

/// Puts a count beside each size.
fn tag_values(sizes: &Vec<i32>, count: i32) -> (items: Vec<(i32, i32)>)
    ensures
        items@ == tagged(sizes@, count),
{
    let mut items: Vec<(i32, i32)> = Vec::new();
    let mut i: usize = 0;
    while i < sizes.len()
        invariant
            0 <= i <= sizes.len(),
            items@.len() == i,
            forall|j: int| 0 <= j < i ==> items@[j] == (sizes@[j], count),
        decreases sizes.len() - i,
    {
        items.push((sizes[i], count));
        i += 1;
    }
    assert(items@ =~= tagged(sizes@, count));
    items
}

/// Merges two neighbouring items of the same size into one, whose count is that of the
/// first and `step` more; hands both back where their sizes differ.
pub fn merge_run(l: (i32, i32), r: (i32, i32), step: i32) -> (m: Result<
    (i32, i32),
    ((i32, i32), (i32, i32)),
>)
    requires
        i32::MIN <= l.1 + step <= i32::MAX,
    ensures
        m == spec_merge(l, r, step),
{
    if l.0 == r.0 {
        Ok((l.0, l.1 + step))
    } else {
        Err((l, r))
    }
}

/// Sorts the sizes with `slice::sort`. The contract is not proved but taken from the
/// documentation of the standard library: afterwards the sizes stand in ascending order,
/// and they are the sizes that were there, each as often as before.
#[verifier::external_body]
fn sort_sizes(sizes: &mut Vec<i32>)
    ensures
        forall|i: int, j: int| 0 <= i <= j < final(sizes)@.len() ==> final(sizes)@[i] <= final(sizes)@[j],
        final(sizes)@.to_multiset() == old(sizes)@.to_multiset(),
{
    sizes.sort()
}

/// Merges runs of neighbours with `Itertools::coalesce`. The contract is not proved but
/// taken from that crate: `coalesce` hands each item and its successor to `merge_run`;
/// the merged item meets the next item in turn, and an item that is not merged with its
/// successor is given out, as is the item that remains at the end. The counts must leave
/// room for `step` at every merge.
#[verifier::external_body]
fn coalesce_runs(items: Vec<(i32, i32)>, step: i32) -> (runs: Vec<(i32, i32)>)
    requires
        0 <= step,
        forall|i: int|
            0 <= i < items@.len() ==> (#[trigger] items@[i]).1 + step * items@.len() <= i32::MAX,
    ensures
        runs@ == coalesced(items@, step),
{
    items.into_iter().coalesce(|l, r| merge_run(l, r, step)).collect()
}

/// Sorts the sizes into ascending order.
fn sorted_sizes(sizes: Vec<i32>) -> (sorted: Vec<i32>)
    ensures
        sorted@ == ascending(sizes@),
{
    let mut sorted = sizes;
    sort_sizes(&mut sorted);
    proof {
        lemma_size_order_total();
        sizes@.lemma_sort_by_ensures(size_order());
        assert(sorted_by(sorted@, size_order()));
        lemma_sorted_unique(sorted@, ascending(sizes@), size_order());
    }
    sorted
}

/// Reads a list of sizes with commas between them. Gives `None` where a piece is not a
/// decimal integer within `i32`.
pub fn parse(inp: &str) -> (r: Option<Vec<i32>>)
    ensures
        r is Some <==> all_sizes(split(inp.spec_bytes(), 0x2c)),
        r is Some ==> r.unwrap()@ == size_values(split(inp.spec_bytes(), 0x2c)),
{
    let bytes = inp.as_bytes();
    assert(bytes@.subrange(0, bytes@.len() as int) =~= bytes@);
    let ghost pieces = split(bytes@, 0x2c);
    let values = match parse_values(bytes, 0, bytes.len()) {
        Some(values) => values,
        None => {
            return None;
        },
    };
    let mut sizes: Vec<i32> = Vec::new();
    let mut i: usize = 0;
    while i < values.len()
        invariant
            0 <= i <= values.len(),
            pieces == split(inp.spec_bytes(), 0x2c),
            values@.len() == pieces.len(),
            forall|j: int| 0 <= j < pieces.len() ==> token_value(#[trigger] pieces[j]) == Some(values@[j]),
            sizes@.len() == i,
            forall|j: int|
                0 <= j < i ==> i32::MIN <= #[trigger] values@[j] <= i32::MAX && sizes@[j]
                    == values@[j],
        decreases values.len() - i,
    {
        let v = values[i];
        if v < i32::MIN as i64 || v > i32::MAX as i64 {
            assert(token_value(pieces[i as int]) == Some(v));
            return None;
        }
        sizes.push(v as i32);
        i += 1;
    }
    proof {
        assert forall|j: int| 0 <= j < pieces.len() implies {
            &&& token_value(#[trigger] pieces[j]) is Some
            &&& i32::MIN <= token_value(pieces[j]).unwrap() <= i32::MAX
        } by {
            assert(i32::MIN <= values@[j] <= i32::MAX);
        }
        assert(sizes@ =~= size_values(pieces));
    }
    Some(sizes)
}

/// Sums the `upto` smallest distinct sizes, or all distinct sizes where there are fewer.
pub fn p1(inp: Vec<i32>, upto: usize) -> (r: i32)
    requires
        i32::MIN <= smallest_sum(inp@, upto as int) <= i32::MAX,
    ensures
        r == smallest_sum(inp@, upto as int),
{
    checked_p1(inp, upto).unwrap()
}

/// Sums the `upto` smallest distinct sizes, or all distinct sizes where there are fewer.
/// Gives `None` where the sum is not within `i32`.
pub fn checked_p1(inp: Vec<i32>, upto: usize) -> (r: Option<i32>)
    ensures
        r is Some <==> i32::MIN <= smallest_sum(inp@, upto as int) <= i32::MAX,
        r is Some ==> r.unwrap() == smallest_sum(inp@, upto as int),
{
    let sorted = sorted_sizes(inp);
    let items = tag_values(&sorted, 0);
    proof {
        assert(0 * items@.len() == 0) by (nonlinear_arith);
    }
    let runs = coalesce_runs(items, 0);
    let ghost distinct = distinct_sizes(inp@);
    assert(distinct.len() == runs@.len());
    let mut sum: i128 = 0;
    let mut k: usize = 0;
    assert(distinct.take(0) =~= Seq::<i32>::empty());
    while k < upto && k < runs.len()
        invariant
            0 <= k <= runs@.len(),
            k <= upto,
            distinct == sizes_of(runs@),
            sum == sum_of(distinct.take(k as int)),
            -0x8000_0000 * k <= sum <= 0x8000_0000 * k,
        decreases runs.len() - k,
    {
        proof {
            let t = distinct.take(k + 1);
            assert(t.drop_last() =~= distinct.take(k as int));
            assert(t.last() == runs@[k as int].0);
        }
        sum = sum + runs[k].0 as i128;
        k += 1;
    }
    if sum < i32::MIN as i128 || sum > i32::MAX as i128 {
        None
    } else {
        Some(sum as i32)
    }
}

/// Counts the crates of the size of which there are most.
pub fn p3(inp: Vec<i32>) -> (r: i32)
    requires
        0 < inp.len() < i32::MAX,
    ensures
        r == longest_run(inp@),
        exists|v: i32| inp@.contains(v) && #[trigger] occurrences(inp@, v) == r,
        forall|v: i32| #[trigger] occurrences(inp@, v) <= r,
{
    let sorted = sorted_sizes(inp);
    let items = tag_values(&sorted, 1);
    proof {
        lemma_ascending(inp@);
        lemma_run_sizes(sorted@, 1, 1);
        lemma_longest_run(inp@);
        assert(1 * items@.len() == items@.len()) by (nonlinear_arith);
    }
    let runs = coalesce_runs(items, 1);
    let mut best: i32 = runs[0].1;
    let mut k: usize = 1;
    assert(runs@.take(1).drop_last() =~= Seq::<(i32, i32)>::empty());
    while k < runs.len()
        invariant
            1 <= k <= runs@.len(),
            best == greatest_count(runs@.take(k as int)),
        decreases runs.len() - k,
    {
        proof {
            let t = runs@.take(k + 1);
            assert(t.drop_last() =~= runs@.take(k as int));
        }
        if runs[k].1 >= best {
            best = runs[k].1;
        }
        k += 1;
    }
    assert(runs@.take(k as int) =~= runs@);
    best
}

} // verus!
