//! The order on elements that the sorts arrange by, and what it means for a
//! sequence to be sorted under it.
//!
//! Everything here is stated over `PartialOrd`. The comparisons of a type
//! need not form an order, and where they do it may be a partial one. The
//! predicates below say what the sorts rely on: that the comparisons keep the
//! laws of an order (`lawful_order`), and that the elements to be sorted are
//! comparable with one another (`comparable`). Of the integer types, with
//! the comparisons that vstd gives them, both hold for every sequence.

use crate::permutation::lemma_rearranged_element;
use core::cmp::Ordering;
use vstd::prelude::*;
use vstd::std_specs::cmp::PartialOrdSpec;

verus! {

/// `x <= y` as the type's `PartialOrd` defines it.
pub open spec fn le<T: PartialOrd>(x: T, y: T) -> bool {
    x.partial_cmp_spec(&y) matches Some(Ordering::Less | Ordering::Equal)
}

/// `x < y` as the type's `PartialOrd` defines it.
pub open spec fn lt<T: PartialOrd>(x: T, y: T) -> bool {
    x.partial_cmp_spec(&y) == Some(Ordering::Less)
}

/// `x` and `y` compare as equal: each is `<=` the other.
pub open spec fn ties<T: PartialOrd>(x: T, y: T) -> bool {
    le(x, y) && le(y, x)
}

/// The comparison operators of `T`, when executed, return what `le` and `lt` say.
pub open spec fn order_is_specified<T: PartialOrd>() -> bool {
    T::obeys_partial_cmp_spec()
}

/// The comparisons of `T` keep the laws that the sorts rely on: `<=` is
/// transitive, and `<` is its strict part. A value may be incomparable with
/// another, or with itself, and distinct values may tie.
pub open spec fn lawful_order<T: PartialOrd>() -> bool {
    &&& order_is_specified::<T>()
    &&& forall|x: T, y: T| #[trigger] lt(x, y) <==> le(x, y) && !le(y, x)
    &&& forall|x: T, y: T, z: T| #[trigger] le(x, y) && #[trigger] le(y, z) ==> le(x, z)
}

/// Any two elements of `s` are comparable, each element with itself too.
pub open spec fn comparable<T: PartialOrd>(s: Seq<T>) -> bool {
    forall|i: int, j: int|
        0 <= i < s.len() && 0 <= j < s.len() ==> le(#[trigger] s[i], #[trigger] s[j]) || le(
            s[j],
            s[i],
        )
}

/// No element of `s` is followed by a smaller one.
pub open spec fn sorted<T: PartialOrd>(s: Seq<T>) -> bool {
    forall|i: int, j: int| 0 <= i < j < s.len() ==> le(#[trigger] s[i], #[trigger] s[j])
}

/// The predicate "ties with `v`".
pub open spec fn ties_with<T: PartialOrd>(v: T) -> spec_fn(T) -> bool {
    |x: T| ties(x, v)
}

/// The elements of `s` that tie with `v`, in the order in which `s` holds them.
pub open spec fn tied<T: PartialOrd>(s: Seq<T>, v: T) -> Seq<T> {
    s.filter(ties_with(v))
}

/// `t` holds every group of tying elements of `s` in the order that the group
/// has in `s`.
pub open spec fn keeps_ties<T: PartialOrd>(s: Seq<T>, t: Seq<T>) -> bool {
    forall|v: T| #[trigger] tied(t, v) == tied(s, v)
}

/// Elements that are comparable with one another stay so when rearranged.
pub proof fn lemma_comparable_rearranged<T: PartialOrd>(s: Seq<T>, t: Seq<T>)
    requires
        comparable(s),
        s.to_multiset() == t.to_multiset(),
    ensures
        comparable(t),
{
    assert forall|i: int, j: int| 0 <= i < t.len() && 0 <= j < t.len() implies le(
        #[trigger] t[i],
        #[trigger] t[j],
    ) || le(t[j], t[i]) by {
        lemma_rearranged_element(s, t, i);
        lemma_rearranged_element(s, t, j);
    }
}

/// Elements that are comparable with one another within a range are so
/// within any range inside it.
pub proof fn lemma_comparable_within<T: PartialOrd>(
    s: Seq<T>,
    lo: int,
    from: int,
    to: int,
    hi: int,
)
    requires
        0 <= lo <= from <= to <= hi <= s.len(),
        comparable(s.subrange(lo, hi)),
    ensures
        comparable(s.subrange(from, to)),
{
    assert(s.subrange(from, to) =~= s.subrange(lo, hi).subrange(from - lo, to - lo));
}

/// A sorted arrangement that keeps ties in their order is the only one: two
/// sorted sequences that hold, for every value, the same elements tying with
/// it in the same order are one and the same sequence.
pub proof fn lemma_stable_order_is_unique<T: PartialOrd>(s: Seq<T>, t: Seq<T>)
    requires
        lawful_order::<T>(),
        comparable(s),
        comparable(t),
        sorted(s),
        sorted(t),
        keeps_ties(s, t),
    ensures
        s == t,
    decreases s.len(),
{
    if s.len() == 0 {
        if t.len() > 0 {
            let y = t.last();
            assert(t =~= t.drop_last().push(y));
            t.drop_last().lemma_filter_push(y, ties_with(y));
            assert(tied(t, y) == tied(s, y));
        }
    } else {
        let x = s.last();
        let s1 = s.drop_last();
        assert(s =~= s1.push(x));
        s1.lemma_filter_push(x, ties_with(x));
        assert(tied(t, x) == tied(s, x));
        let y = t.last();
        let t1 = t.drop_last();
        assert(t =~= t1.push(y));
        t1.lemma_filter_push(y, ties_with(y));
        assert(tied(t, y) == tied(s, y));

        // Each of `x` and `y` is the last of its ties in one sequence, so it
        // stands in the other, where nothing is behind the last element.
        assert(le(x, y)) by {
            t.lemma_filter_contains_rev(ties_with(x), x);
        }
        assert(le(y, x)) by {
            s.lemma_filter_contains_rev(ties_with(y), y);
        }
        // So the two tie, and each is the last of the ties of `x`.
        assert(x == y) by {
            t1.lemma_filter_push(y, ties_with(x));
            assert(tied(s, x).last() == x);
        }
        assert forall|v: T| #[trigger] tied(t1, v) == tied(s1, v) by {
            s1.lemma_filter_push(x, ties_with(v));
            t1.lemma_filter_push(x, ties_with(v));
            assert(tied(t, v) == tied(s, v));
            if ties(x, v) {
                assert(tied(t1, v) =~= tied(t1, v).push(x).drop_last());
            }
        }
        lemma_stable_order_is_unique(s1, t1);
    }
}

/// Sorted arrangements of the same elements agree up to ties: at every index
/// the element of the one ties with the element of the other.
pub proof fn lemma_sorted_rearrangements_tie<T: PartialOrd>(s: Seq<T>, t: Seq<T>)
    requires
        lawful_order::<T>(),
        comparable(s),
        sorted(s),
        sorted(t),
        s.to_multiset() == t.to_multiset(),
    ensures
        s.len() == t.len(),
        forall|i: int| 0 <= i < s.len() ==> ties(#[trigger] s[i], t[i]),
    decreases s.len(),
{
    vstd::seq_lib::to_multiset_len(s);
    vstd::seq_lib::to_multiset_len(t);
    if s.len() > 0 {
        let n = s.len() - 1;
        // The last element of `s` stands in `t` at some `k`, and that of `t`
        // in `s`: the two tie, and so does all of `t` from `k` on.
        let k = lemma_rearranged_element(t, s, n);
        lemma_rearranged_element(s, t, n);
        let s1 = s.drop_last();
        let t1 = t.remove(k);
        vstd::seq_lib::to_multiset_remove(s, n);
        vstd::seq_lib::to_multiset_remove(t, k);
        lemma_sorted_rearrangements_tie(s1, t1);
        assert forall|i: int| 0 <= i < s.len() implies ties(#[trigger] s[i], t[i]) by {
            if i < n {
                assert(ties(s1[i], t1[i]));
            }
        }
    }
}

} // verus!
