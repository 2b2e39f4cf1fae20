//! Quicksort in place: Lomuto partitioning around the last element of each
//! range, then the same on either side of where the pivot came to rest.
//!
//! Elements that tie may change their order.

use crate::order::{
    comparable, lawful_order, le, lemma_comparable_rearranged, lemma_comparable_within,
    lemma_sorted_rearrangements_tie, lt, order_is_specified, sorted, ties,
};
use crate::permutation::{
    lemma_rearranged_all, lemma_rearranged_within, lemma_swap_rearranges, swapped,
};
use vstd::prelude::*;

verus! {

/// `<[T]>::swap` exchanges the elements at the two indices and leaves the
/// rest alone; with equal indices nothing changes. It panics on an index out
/// of bounds, which the precondition excludes.
pub assume_specification<E>[ <[E]>::swap ](slice: &mut [E], a: usize, b: usize)
    requires
        a < old(slice)@.len(),
        b < old(slice)@.len(),
    ensures
        final(slice)@ == old(slice)@.update(a as int, old(slice)@[b as int]).update(
            b as int,
            old(slice)@[a as int],
        ),
;

/// The predicate "smaller than `pivot`".
pub open spec fn below<T: PartialOrd>(pivot: T) -> spec_fn(T) -> bool {
    |x: T| lt(x, pivot)
}

/// The predicate "not smaller than `pivot`".
spec fn not_below<T: PartialOrd>(pivot: T) -> spec_fn(T) -> bool {
    |x: T| !lt(x, pivot)
}

/// Exchanging two elements within `[from, to)` rearranges that range, and
/// the whole.
proof fn lemma_swap_within<T>(s: Seq<T>, from: int, to: int, i: int, j: int)
    requires
        0 <= from <= i < to <= s.len(),
        from <= j < to,
    ensures
        swapped(s, i, j).subrange(from, to).to_multiset() == s.subrange(from, to).to_multiset(),
        swapped(s, i, j).to_multiset() == s.to_multiset(),
{
    assert(swapped(s, i, j).subrange(from, to) =~= swapped(
        s.subrange(from, to),
        i - from,
        j - from,
    ));
    lemma_swap_rearranges(s.subrange(from, to), i - from, j - from);
    lemma_swap_rearranges(s, i, j);
}

/// A range is sorted when it is sorted on either side of an element that
/// all before it are smaller than and none behind it is.
proof fn lemma_sorted_around<T: PartialOrd>(s: Seq<T>, from: int, p: int, to: int)
    requires
        lawful_order::<T>(),
        0 <= from <= p < to <= s.len(),
        comparable(s.subrange(from, to)),
        sorted(s.subrange(from, p)),
        sorted(s.subrange(p + 1, to)),
        forall|k: int| 0 <= k < p - from ==> lt(#[trigger] s.subrange(from, p)[k], s[p]),
        forall|k: int| 0 <= k < to - p - 1 ==> !lt(#[trigger] s.subrange(p + 1, to)[k], s[p]),
    ensures
        sorted(s.subrange(from, to)),
{
    let range = s.subrange(from, to);
    let front = s.subrange(from, p);
    let back = s.subrange(p + 1, to);
    assert forall|i: int, j: int| 0 <= i < j < range.len() implies le(
        #[trigger] range[i],
        #[trigger] range[j],
    ) by {
        let pivot = range[p - from];
        if i < p - from {
            assert(lt(front[i], pivot));
        }
        if j > p - from {
            assert(!lt(back[j - (p - from) - 1], pivot));
        }
        if j < p - from {
            assert(le(front[i], front[j]));
        }
        if i > p - from {
            assert(le(back[i - (p - from) - 1], back[j - (p - from) - 1]));
        }
    }
}

/// Partitions the range `[begin, end]` of `vec` around its last element, the
/// pivot, and returns the index at which the pivot comes to rest.
///
/// Before that index stand the elements of the range that are smaller than
/// the pivot, in the order in which they came; behind it stand the others.
#[verifier::loop_isolation(false)]
pub fn partition<T>(vec: &mut Vec<T>, begin: usize, end: usize) -> (pivot: usize) where
    T: PartialOrd,

    requires
        begin <= end < old(vec).len(),
    ensures
        begin <= pivot <= end,
        final(vec).len() == old(vec).len(),
        forall|k: int|
            0 <= k < begin || end < k < old(vec).len() ==> final(vec)@[k] == old(vec)@[k],
        final(vec)@.to_multiset() == old(vec)@.to_multiset(),
        ({
            let input = old(vec)@.subrange(begin as int, end + 1);
            let output = final(vec)@.subrange(begin as int, end + 1);
            let value = old(vec)@[end as int];
            &&& output.to_multiset() == input.to_multiset()
            &&& final(vec)@[pivot as int] == value
            &&& order_is_specified::<T>() ==> {
                &&& final(vec)@.subrange(begin as int, pivot as int) == old(vec)@.subrange(
                    begin as int,
                    end as int,
                ).filter(below(value))
                &&& forall|k: int| begin <= k < pivot ==> lt(#[trigger] final(vec)@[k], value)
                &&& forall|k: int| pivot < k <= end ==> !lt(#[trigger] final(vec)@[k], value)
            }
            &&& lawful_order::<T>() && comparable(input) ==> forall|k: int|
                pivot < k <= end ==> le(value, #[trigger] final(vec)@[k])
        }),
{
    let pivot = end;
    let mut i = begin;
    let ghost value = vec@[end as int];
    let ghost scanned = vec@.subrange(begin as int, end as int);
    for j in begin..end
        invariant
            begin <= i <= j,
            vec.len() == old(vec).len(),
            forall|k: int| 0 <= k < begin || j <= k < vec.len() ==> vec@[k] == old(vec)@[k],
            vec@.to_multiset() == old(vec)@.to_multiset(),
            vec@.subrange(begin as int, end + 1).to_multiset() == old(vec)@.subrange(
                begin as int,
                end + 1,
            ).to_multiset(),
            order_is_specified::<T>() ==> {
                &&& vec@.subrange(begin as int, i as int) == scanned.take(j - begin).filter(
                    below(value),
                )
                &&& forall|k: int| begin <= k < i ==> lt(#[trigger] vec@[k], value)
                &&& forall|k: int| i <= k < j ==> !lt(#[trigger] vec@[k], value)
            },
    {
        let ghost before = vec@;
        proof {
            assert(scanned.take(j - begin + 1) =~= scanned.take(j - begin).push(before[j as int]));
            scanned.take(j - begin).lemma_filter_push(before[j as int], below(value));
        }
        if vec[j] < vec[pivot] {
            vec.swap(i, j);
            proof {
                lemma_swap_within(before, begin as int, end + 1, i as int, j as int);
            }
            i += 1;
        }
    }
    let ghost before = vec@;
    vec.swap(i, end);
    proof {
        lemma_swap_within(before, begin as int, end + 1, i as int, end as int);
        assert(scanned.take(end - begin) =~= scanned);
        if lawful_order::<T>() && comparable(old(vec)@.subrange(begin as int, end + 1)) {
            // What is not smaller than the pivot, and comparable with it,
            // is greater or ties with it.
            let range = vec@.subrange(begin as int, end + 1);
            lemma_comparable_rearranged(old(vec)@.subrange(begin as int, end + 1), range);
            assert forall|k: int| i < k <= end implies le(value, #[trigger] vec@[k]) by {
                assert(le(range[i - begin], range[k - begin]) || le(
                    range[k - begin],
                    range[i - begin],
                ));
            }
        }
    }
    i
}

/// Sorts the range `[begin, end]` of `vec` in place and leaves the rest of
/// `vec` alone. A range with `begin >= end` holds at most one element and is
/// left as it is.
pub fn split_sort<T>(vec: &mut Vec<T>, begin: usize, end: usize) where T: PartialOrd
    requires
        begin < end ==> end < old(vec).len(),
    ensures
        final(vec).len() == old(vec).len(),
        begin >= end ==> *final(vec) == *old(vec),
        forall|k: int|
            0 <= k < begin || end < k < old(vec).len() ==> final(vec)@[k] == old(vec)@[k],
        final(vec)@.to_multiset() == old(vec)@.to_multiset(),
        begin < end ==> {
            let input = old(vec)@.subrange(begin as int, end + 1);
            let output = final(vec)@.subrange(begin as int, end + 1);
            &&& output.to_multiset() == input.to_multiset()
            &&& lawful_order::<T>() && comparable(input) ==> sorted(output)
        },
    decreases
            (if begin < end {
                end - begin
            } else {
                0
            }),
{
    if begin < end {
        let ghost ordered = lawful_order::<T>() && comparable(
            vec@.subrange(begin as int, end + 1),
        );
        let pivot = partition(vec, begin, end);
        let ghost parted = vec@;
        proof {
            if ordered {
                lemma_comparable_rearranged(
                    old(vec)@.subrange(begin as int, end + 1),
                    parted.subrange(begin as int, end + 1),
                );
                lemma_comparable_within(parted, begin as int, begin as int, pivot as int, end + 1);
                lemma_comparable_within(parted, begin as int, pivot + 1, end + 1, end + 1);
            }
        }
        if pivot != begin {
            split_sort(vec, begin, pivot - 1);
        }
        let ghost halfway = vec@;
        proof {
            assert(halfway.subrange(pivot + 1, end + 1) =~= parted.subrange(pivot + 1, end + 1));
        }
        split_sort(vec, pivot + 1, end);
        proof {
            let from = begin as int;
            let p = pivot as int;
            let to = end + 1;
            assert(vec@.subrange(from, p) =~= halfway.subrange(from, p));
            lemma_rearranged_within(parted, halfway, from, from, p, to);
            lemma_rearranged_within(halfway, vec@, from, p + 1, to, to);
            if ordered {
                let value = parted[p];
                lemma_comparable_rearranged(old(vec)@.subrange(from, to), vec@.subrange(from, to));
                lemma_rearranged_all(
                    parted.subrange(from, p),
                    vec@.subrange(from, p),
                    below(value),
                );
                lemma_rearranged_all(
                    parted.subrange(p + 1, to),
                    vec@.subrange(p + 1, to),
                    not_below(value),
                );
                lemma_sorted_around(vec@, from, p, to);
            }
        }
    }
}

/// Sorts `vec` in place, in ascending order.
///
/// The result is a rearrangement of the input. It is sorted wherever the
/// order of `T` is lawful and the elements of `vec` are comparable with one
/// another. Elements that tie may come out in another order than they came
/// in, in a vector that is sorted already too: what then stands at an index
/// ties with what stood there.
pub fn sort<T>(vec: &mut Vec<T>) where T: PartialOrd
    ensures
        final(vec).len() == old(vec).len(),
        old(vec).len() < 2 ==> *final(vec) == *old(vec),
        final(vec)@.to_multiset() == old(vec)@.to_multiset(),
        lawful_order::<T>() && comparable(old(vec)@) ==> {
            &&& sorted(final(vec)@)
            &&& sorted(old(vec)@) ==> forall|i: int|
                0 <= i < old(vec).len() ==> ties(#[trigger] final(vec)@[i], old(vec)@[i])
        },
{
    let length = vec.len();
    if length < 2 {
        return ;
    }
    split_sort(vec, 0, length - 1);
    proof {
        assert(vec@.subrange(0, length as int) =~= vec@);
        if lawful_order::<T>() && comparable(old(vec)@) && sorted(old(vec)@) {
            lemma_comparable_rearranged(old(vec)@, vec@);
            lemma_sorted_rearrangements_tie(vec@, old(vec)@);
        }
    }
}

} // verus!
