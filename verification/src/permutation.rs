//! Rearrangements: sequences that hold the same elements, each as often as
//! the other. Two sequences are rearrangements of one another when their
//! multisets are equal.

use vstd::prelude::*;
use vstd::seq_lib::{
    lemma_multiset_commutative, to_multiset_build, to_multiset_contains, to_multiset_update,
};

verus! {

/// `s` with the elements at `i` and `j` exchanged.
pub open spec fn swapped<T>(s: Seq<T>, i: int, j: int) -> Seq<T> {
    s.update(i, s[j]).update(j, s[i])
}

/// Exchanging two elements of a sequence rearranges it.
pub proof fn lemma_swap_rearranges<T>(s: Seq<T>, i: int, j: int)
    requires
        0 <= i < s.len(),
        0 <= j < s.len(),
    ensures
        swapped(s, i, j).to_multiset() == s.to_multiset(),
{
    broadcast use vstd::multiset::group_multiset_axioms;

    to_multiset_update(s, i, s[j]);
    to_multiset_update(s.update(i, s[j]), j, s[i]);
    to_multiset_contains(s, s[i]);
}

/// Each element of a rearrangement of `s` is an element of `s`.
pub proof fn lemma_rearranged_element<T>(s: Seq<T>, t: Seq<T>, k: int) -> (m: int)
    requires
        s.to_multiset() == t.to_multiset(),
        0 <= k < t.len(),
    ensures
        0 <= m < s.len(),
        s[m] == t[k],
{
    to_multiset_contains(t, t[k]);
    to_multiset_contains(s, t[k]);
    choose|m: int| 0 <= m < s.len() && s[m] == t[k]
}

/// What holds of every element of a sequence holds of every element of its
/// rearrangements.
pub proof fn lemma_rearranged_all<T>(s: Seq<T>, t: Seq<T>, holds: spec_fn(T) -> bool)
    requires
        s.to_multiset() == t.to_multiset(),
        forall|k: int| 0 <= k < s.len() ==> holds(#[trigger] s[k]),
    ensures
        forall|k: int| 0 <= k < t.len() ==> holds(#[trigger] t[k]),
{
    assert forall|k: int| 0 <= k < t.len() implies holds(#[trigger] t[k]) by {
        lemma_rearranged_element(s, t, k);
    }
}

/// Rearrangements of two sequences, put one behind the other, rearrange the
/// two sequences put one behind the other.
pub proof fn lemma_rearranged_parts<T>(front: Seq<T>, back: Seq<T>, left: Seq<T>, right: Seq<T>)
    requires
        left.to_multiset() == front.to_multiset(),
        right.to_multiset() == back.to_multiset(),
    ensures
        (left + right).to_multiset() == (front + back).to_multiset(),
{
    lemma_multiset_commutative(left, right);
    lemma_multiset_commutative(front, back);
}

/// Where two sequences differ only between `from` and `to`, and there by a
/// rearrangement, any range around `[from, to)` of the one is a rearrangement
/// of that range of the other.
pub proof fn lemma_rearranged_within<T>(s: Seq<T>, t: Seq<T>, lo: int, from: int, to: int, hi: int)
    requires
        0 <= lo <= from <= to <= hi <= s.len(),
        s.len() == t.len(),
        s.subrange(from, to).to_multiset() == t.subrange(from, to).to_multiset(),
        forall|k: int| lo <= k < from || to <= k < hi ==> s[k] == t[k],
    ensures
        s.subrange(lo, hi).to_multiset() == t.subrange(lo, hi).to_multiset(),
{
    let head = s.subrange(lo, from);
    let tail = s.subrange(to, hi);
    assert(head =~= t.subrange(lo, from));
    assert(tail =~= t.subrange(to, hi));
    assert(s.subrange(lo, hi) =~= head + s.subrange(from, to) + tail);
    assert(t.subrange(lo, hi) =~= head + t.subrange(from, to) + tail);
    lemma_rearranged_parts(head, s.subrange(from, to), head, t.subrange(from, to));
    lemma_rearranged_parts(head + s.subrange(from, to), tail, head + t.subrange(from, to), tail);
}

/// A rearrangement of two sequences put together stays one when an element
/// is added to it and to either of the two.
pub proof fn lemma_rearranged_push<T>(out: Seq<T>, left: Seq<T>, right: Seq<T>, x: T)
    requires
        out.to_multiset() == (left + right).to_multiset(),
    ensures
        out.push(x).to_multiset() == (left.push(x) + right).to_multiset(),
        out.push(x).to_multiset() == (left + right.push(x)).to_multiset(),
{
    broadcast use vstd::multiset::group_multiset_axioms;

    lemma_multiset_commutative(left, right);
    lemma_multiset_commutative(left.push(x), right);
    lemma_multiset_commutative(left, right.push(x));
    to_multiset_build(out, x);
    to_multiset_build(left, x);
    to_multiset_build(right, x);
}

} // verus!
