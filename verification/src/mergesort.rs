//! Top-down merge sort: stable, with one auxiliary buffer of the input's length.
//!
//! The two buffers swap roles at every level of the recursion, so each level
//! merges from one into the other and nothing is copied back.
//!
//! Elements travel between the buffers as clones. What is promised of the
//! elements of the result is promised where a clone of a `T` is the value it
//! was made from, which `clones_exactly` says.

use crate::order::{
    comparable, keeps_ties, lawful_order, le, lemma_comparable_rearranged,
    lemma_comparable_within, lemma_stable_order_is_unique, sorted, tied, ties, ties_with,
};
use crate::permutation::{lemma_rearranged_parts, lemma_rearranged_push};
use vstd::prelude::*;

verus! {

/// A clone of a `T` is the value that was cloned.
pub open spec fn clones_exactly<T: Clone>() -> bool {
    forall|x: T, y: T| #[trigger] cloned(x, y) ==> x == y
}

/// The index at which the range `[begin, end)` is split in two.
pub open spec fn midpoint(begin: int, end: int) -> int {
    (begin + end) / 2
}

/// The state of a merge of the sorted runs `left` and `right` after `i`
/// elements of the first and `j` of the second have been moved to `out`:
/// `out` is sorted and reaches no further than the heads of the two runs,
/// ties stand in it left run first, and what was taken from the right run is
/// smaller than all that waits in the left.
spec fn merging<T: PartialOrd>(left: Seq<T>, right: Seq<T>, i: int, j: int, out: Seq<T>) -> bool {
    &&& 0 <= i <= left.len()
    &&& 0 <= j <= right.len()
    &&& sorted(out)
    &&& i < left.len() ==> forall|p: int| 0 <= p < out.len() ==> le(#[trigger] out[p], left[i])
    &&& j < right.len() ==> forall|p: int| 0 <= p < out.len() ==> le(#[trigger] out[p], right[j])
    &&& forall|v: T| #[trigger] tied(out, v) == tied(left.take(i), v) + tied(right.take(j), v)
    &&& forall|p: int, q: int|
        0 <= p < j && i <= q < left.len() ==> !le(#[trigger] left[q], #[trigger] right[p])
}

/// A merge goes on by the head of the left run where the right run is
/// exhausted or its head is no smaller.
proof fn lemma_merging_left<T: PartialOrd>(
    left: Seq<T>,
    right: Seq<T>,
    i: int,
    j: int,
    out: Seq<T>,
)
    requires
        lawful_order::<T>(),
        sorted(left),
        sorted(right),
        merging(left, right, i, j, out),
        i < left.len(),
        j < right.len() ==> le(left[i], right[j]),
    ensures
        merging(left, right, i + 1, j, out.push(left[i])),
{
    let x = left[i];
    assert(left.take(i + 1) =~= left.take(i).push(x));
    assert forall|v: T| #[trigger]
        tied(out.push(x), v) == tied(left.take(i + 1), v) + tied(right.take(j), v) by {
        out.lemma_filter_push(x, ties_with(v));
        left.take(i).lemma_filter_push(x, ties_with(v));
        assert(tied(out, v) == tied(left.take(i), v) + tied(right.take(j), v));
        if ties(x, v) {
            // What was taken from the right run is smaller than `x`: none
            // of it ties with `x`, and `x` follows the last of its ties.
            right.take(j).lemma_all_neg_filter_empty(ties_with(v));
        }
    }
}

/// A merge goes on by the head of the right run where the left run is
/// exhausted or its head is not `<=` that of the right.
proof fn lemma_merging_right<T: PartialOrd>(
    left: Seq<T>,
    right: Seq<T>,
    i: int,
    j: int,
    out: Seq<T>,
)
    requires
        lawful_order::<T>(),
        comparable(left + right),
        sorted(left),
        sorted(right),
        merging(left, right, i, j, out),
        j < right.len(),
        i < left.len() ==> !le(left[i], right[j]),
    ensures
        merging(left, right, i, j + 1, out.push(right[j])),
{
    let y = right[j];
    assert(right.take(j + 1) =~= right.take(j).push(y));
    assert forall|v: T| #[trigger]
        tied(out.push(y), v) == tied(left.take(i), v) + tied(right.take(j + 1), v) by {
        out.lemma_filter_push(y, ties_with(v));
        right.take(j).lemma_filter_push(y, ties_with(v));
        assert(tied(out, v) == tied(left.take(i), v) + tied(right.take(j), v));
    }
    if i < left.len() {
        // The head of the left run is not `<=` `y`, so `y` is `<=` it, and
        // smaller than all of the left run from there on.
        assert(le(y, left[i])) by {
            let both = left + right;
            assert(le(both[i], both[left.len() + j]) || le(both[left.len() + j], both[i]));
        }
    }
}

/// Sequences that are alike within a range are alike within any range
/// inside it.
proof fn lemma_alike_within<T>(s: Seq<T>, t: Seq<T>, lo: int, from: int, to: int, hi: int)
    requires
        0 <= lo <= from <= to <= hi,
        hi <= s.len(),
        hi <= t.len(),
        s.subrange(lo, hi) == t.subrange(lo, hi),
    ensures
        s.subrange(from, to) == t.subrange(from, to),
{
    assert(s.subrange(from, to) =~= s.subrange(lo, hi).subrange(from - lo, to - lo));
    assert(t.subrange(from, to) =~= t.subrange(lo, hi).subrange(from - lo, to - lo));
}

/// Ties that keep their order within `front` and within `back` keep it in
/// the two put together.
proof fn lemma_parts_keep_ties<T: PartialOrd>(
    front: Seq<T>,
    back: Seq<T>,
    left: Seq<T>,
    right: Seq<T>,
)
    requires
        keeps_ties(front, left),
        keeps_ties(back, right),
    ensures
        keeps_ties(front + back, left + right),
{
    assert forall|v: T| #[trigger] tied(left + right, v) == tied(front + back, v) by {
        assert(tied(left, v) == tied(front, v));
        assert(tied(right, v) == tied(back, v));
    }
}

/// Merges the adjacent runs `[begin, middle)` and `[middle, end)` of `a` into
/// the range `[begin, end)` of `b`. Of two heads that tie the left one is
/// taken, so that where both runs are sorted the result is sorted and stable.
///
/// `a` is only read; of `b` nothing outside `[begin, end)` is written.
#[verifier::loop_isolation(false)]
pub fn top_down_merge<T>(
    a: &mut Vec<T>,
    b: &mut Vec<T>,
    begin: usize,
    middle: usize,
    end: usize,
) where T: PartialOrd + Clone
    requires
        begin <= middle <= end,
        end <= old(a).len(),
        end <= old(b).len(),
    ensures
        *final(a) == *old(a),
        final(b).len() == old(b).len(),
        forall|k: int|
            0 <= k < begin || end <= k < old(b).len() ==> final(b)@[k] == old(b)@[k],
        ({
            let left = old(a)@.subrange(begin as int, middle as int);
            let right = old(a)@.subrange(middle as int, end as int);
            let merged = final(b)@.subrange(begin as int, end as int);
            &&& clones_exactly::<T>() ==> merged.to_multiset() == (left + right).to_multiset()
            &&& clones_exactly::<T>() && lawful_order::<T>() && comparable(left + right)
                && sorted(left) && sorted(right) ==> {
                &&& sorted(merged)
                &&& keeps_ties(left + right, merged)
            }
        }),
{
    let mut i = begin;
    let mut j = middle;
    let ghost left = a@.subrange(begin as int, middle as int);
    let ghost right = a@.subrange(middle as int, end as int);
    let ghost ordered = clones_exactly::<T>() && lawful_order::<T>() && comparable(
        left + right,
    ) && sorted(left) && sorted(right);
    proof {
        assert(b@.subrange(begin as int, begin as int) =~= left.take(0) + right.take(0));
    }
    for k in begin..end
        invariant
            *a == *old(a),
            b.len() == old(b).len(),
            begin <= i <= middle <= j <= end,
            k - begin == (i - begin) + (j - middle),
            forall|p: int| 0 <= p < begin || end <= p < b.len() ==> b@[p] == old(b)@[p],
            clones_exactly::<T>() ==> b@.subrange(begin as int, k as int).to_multiset()
                == (left.take(i - begin) + right.take(j - middle)).to_multiset(),
            ordered ==> merging(
                left,
                right,
                i - begin,
                j - middle,
                b@.subrange(begin as int, k as int),
            ),
    {
        let ghost out = b@.subrange(begin as int, k as int);
        if i < middle && (j >= end || a[i] <= a[j]) {
            b[k] = a[i].clone();
            proof {
                let x = left[i - begin];
                assert(cloned(x, b@[k as int]));
                if clones_exactly::<T>() {
                    assert(b@.subrange(begin as int, k + 1) =~= out.push(x));
                    assert(left.take(i - begin + 1) =~= left.take(i - begin).push(x));
                    lemma_rearranged_push(out, left.take(i - begin), right.take(j - middle), x);
                }
                if ordered {
                    lemma_merging_left(left, right, i - begin, j - middle, out);
                }
            }
            i += 1;
        } else {
            b[k] = a[j].clone();
            proof {
                let y = right[j - middle];
                assert(cloned(y, b@[k as int]));
                if clones_exactly::<T>() {
                    assert(b@.subrange(begin as int, k + 1) =~= out.push(y));
                    assert(right.take(j - middle + 1) =~= right.take(j - middle).push(y));
                    lemma_rearranged_push(out, left.take(i - begin), right.take(j - middle), y);
                }
                if ordered {
                    lemma_merging_right(left, right, i - begin, j - middle, out);
                }
            }
            j += 1;
        }
    }
    proof {
        assert(left.take(left.len() as int) =~= left);
        assert(right.take(right.len() as int) =~= right);
    }
}

/// Sorts the range `[begin, end)` of `a` into the same range of `b`, with
/// that range of `a` as working space. The two ranges are meant to hold the
/// same elements on entry, and what is promised of the result is promised
/// where they do.
///
/// On return `a` holds each half of its range, split at
/// `midpoint(begin, end)`, sorted by itself. Neither vector is touched
/// outside `[begin, end)`, and a range of fewer than two elements is not
/// touched at all.
pub fn split_merge_sort<T>(a: &mut Vec<T>, b: &mut Vec<T>, begin: usize, end: usize) where
    T: PartialOrd + Clone,

    requires
        begin <= end,
        end <= old(a).len(),
        end <= old(b).len(),
    ensures
        final(a).len() == old(a).len(),
        final(b).len() == old(b).len(),
        forall|k: int|
            0 <= k < begin || end <= k < old(a).len() ==> final(a)@[k] == old(a)@[k],
        forall|k: int|
            0 <= k < begin || end <= k < old(b).len() ==> final(b)@[k] == old(b)@[k],
        end - begin < 2 ==> *final(a) == *old(a) && *final(b) == *old(b),
        ({
            let middle = midpoint(begin as int, end as int);
            let input = old(a)@.subrange(begin as int, end as int);
            let output = final(b)@.subrange(begin as int, end as int);
            let input_front = old(a)@.subrange(begin as int, middle);
            let input_back = old(a)@.subrange(middle, end as int);
            let front = final(a)@.subrange(begin as int, middle);
            let back = final(a)@.subrange(middle, end as int);
            clones_exactly::<T>() && old(b)@.subrange(begin as int, end as int) == input ==> {
                &&& output.to_multiset() == input.to_multiset()
                &&& front.to_multiset() == input_front.to_multiset()
                &&& back.to_multiset() == input_back.to_multiset()
                &&& lawful_order::<T>() && comparable(input) ==> {
                    &&& sorted(output) && keeps_ties(input, output)
                    &&& sorted(front) && keeps_ties(input_front, front)
                    &&& sorted(back) && keeps_ties(input_back, back)
                }
            }
        }),
    decreases end - begin,
{
    if end - begin < 2 {
        return ;
    }
    let middle = begin + (end - begin) / 2;

    let ghost input = a@.subrange(begin as int, end as int);
    let ghost input_front = a@.subrange(begin as int, middle as int);
    let ghost input_back = a@.subrange(middle as int, end as int);
    let ghost exact = clones_exactly::<T>() && b@.subrange(begin as int, end as int) == input;
    let ghost ordered = exact && lawful_order::<T>() && comparable(input);
    proof {
        assert(input_front + input_back =~= input);
        if exact {
            lemma_alike_within(a@, b@, begin as int, begin as int, middle as int, end as int);
            lemma_alike_within(a@, b@, begin as int, middle as int, end as int, end as int);
        }
        if ordered {
            lemma_comparable_within(a@, begin as int, begin as int, middle as int, end as int);
            lemma_comparable_within(a@, begin as int, middle as int, end as int, end as int);
        }
    }
    split_merge_sort(b, a, begin, middle);
    proof {
        if exact {
            // Sorting the front half has left the back half of both alone.
            assert(b@.subrange(middle as int, end as int) =~= input_back);
            assert(a@.subrange(middle as int, end as int) =~= input_back);
        }
    }
    let ghost front = a@.subrange(begin as int, middle as int);
    split_merge_sort(b, a, middle, end);
    let ghost back = a@.subrange(middle as int, end as int);
    proof {
        // Sorting the back half has left the sorted front half of `a` alone.
        assert(a@.subrange(begin as int, middle as int) =~= front);
        if exact {
            lemma_rearranged_parts(input_front, input_back, front, back);
        }
        if ordered {
            lemma_comparable_rearranged(input, front + back);
            lemma_parts_keep_ties(input_front, input_back, front, back);
        }
    }
    top_down_merge(a, b, begin, middle, end);
}

/// Sorts `vec` in place, in ascending order, keeping elements that tie in
/// the order in which they came.
///
/// The result is a rearrangement of the input. It is sorted, with ties in
/// their order, wherever the order of `T` is lawful and the elements of `vec`
/// are comparable with one another. A vector that is sorted already comes
/// back as it was.
pub fn sort<T>(vec: &mut Vec<T>) where T: PartialOrd + Clone
    ensures
        final(vec).len() == old(vec).len(),
        old(vec).len() < 2 ==> *final(vec) == *old(vec),
        clones_exactly::<T>() ==> final(vec)@.to_multiset() == old(vec)@.to_multiset(),
        clones_exactly::<T>() && lawful_order::<T>() && comparable(old(vec)@) ==> {
            &&& sorted(final(vec)@)
            &&& keeps_ties(old(vec)@, final(vec)@)
            &&& sorted(old(vec)@) ==> final(vec)@ == old(vec)@
        },
{
    let length = vec.len();
    let mut copy = vec.clone();
    proof {
        assert(vec@.subrange(0, length as int) =~= vec@);
    }
    split_merge_sort(&mut copy, vec, 0, length);
    proof {
        assert(vec@.subrange(0, length as int) =~= vec@);
        if clones_exactly::<T>() && lawful_order::<T>() && comparable(old(vec)@) && sorted(
            old(vec)@,
        ) {
            lemma_comparable_rearranged(old(vec)@, vec@);
            lemma_stable_order_is_unique(old(vec)@, vec@);
        }
    }
}

} // verus!
