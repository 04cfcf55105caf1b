//! In-place quicksort with Hoare-style partitioning around the rightmost element.

use crate::order::{at_most, lemma_antisymmetric, lemma_order_laws, precedes};
use vstd::laws_cmp::obeys_cmp;
use vstd::laws_eq::obeys_concrete_eq;
use vstd::prelude::*;
use vstd::std_specs::cmp::PartialOrdSpec;

verus! {

broadcast use vstd::seq_lib::group_to_multiset_ensures;

/// Relies on `<[T]>::swap`: it exchanges the elements at `a` and `b`, and
/// panics when either index is out of bounds.
pub assume_specification<Elem>[ <[Elem]>::swap ](slice: &mut [Elem], first: usize, second: usize)
    requires
        first < old(slice)@.len(),
        second < old(slice)@.len(),
    ensures
        final(slice)@ == old(slice)@.update(first as int, old(slice)@[second as int]).update(
            second as int,
            old(slice)@[first as int],
        ),
;

/// Every pair of positions in `[lo, hi)` is in order.
pub open spec fn sorted_between<T: PartialOrd>(s: Seq<T>, lo: int, hi: int) -> bool {
    forall|a: int, b: int| lo <= a < b < hi ==> at_most(#[trigger] s[a], #[trigger] s[b])
}

/// The whole sequence is in non-decreasing order.
pub open spec fn is_sorted<T: PartialOrd>(s: Seq<T>) -> bool {
    sorted_between(s, 0, s.len() as int)
}

/// `x` stands somewhere in `s[lo..=hi]`.
pub open spec fn occurs_between<T>(x: T, s: Seq<T>, lo: int, hi: int) -> bool {
    exists|m: int| lo <= m <= hi && s[m] == x
}

/// Every element of `t` in `[lo, hi]` is one that `s` held somewhere in `[lo, hi]`.
pub open spec fn drawn_from<T>(t: Seq<T>, s: Seq<T>, lo: int, hi: int) -> bool {
    forall|k: int| lo <= k <= hi ==> occurs_between(#[trigger] t[k], s, lo, hi)
}

/// Positions outside `[lo, hi]` hold what they held before.
pub open spec fn unchanged_outside<T>(t: Seq<T>, s: Seq<T>, lo: int, hi: int) -> bool {
    &&& t.len() == s.len()
    &&& forall|k: int| 0 <= k < s.len() && (k < lo || hi < k) ==> #[trigger] t[k] == s[k]
}

fn swap_at<T>(v: &mut Vec<T>, a: usize, b: usize)
    requires
        a < old(v)@.len(),
        b < old(v)@.len(),
    ensures
        final(v)@ == old(v)@.update(a as int, old(v)@[b as int]).update(b as int, old(v)@[a as int]),
        final(v)@.to_multiset() == old(v)@.to_multiset(),
{
    let ghost s = v@;
    v.as_mut_slice().swap(a, b);
    proof {
        let s1 = s.update(a as int, s[b as int]);
        assert(s1.to_multiset() == s.to_multiset().insert(s[b as int]).remove(s[a as int]));
        assert(s1.update(b as int, s[a as int]).to_multiset() == s1.to_multiset().insert(
            s[a as int],
        ).remove(s1[b as int]));
        assert(s.to_multiset().count(s[b as int]) > 0) by {
            assert(s.contains(s[b as int]));
        }
        if a != b {
            assert(s1[b as int] == s[b as int]);
        }
    }
}

/// Moves the element at `right` to its final place `p` within `[left, right]`:
/// everything before `p` is at most it, everything after is at least it.
fn partition<T: Ord>(v: &mut Vec<T>, left: usize, right: usize) -> (p: usize)
    requires
        obeys_cmp::<T>(),
        left < right < old(v)@.len(),
    ensures
        left <= p <= right,
        final(v)@.to_multiset() == old(v)@.to_multiset(),
        unchanged_outside(final(v)@, old(v)@, left as int, right as int),
        drawn_from(final(v)@, old(v)@, left as int, right as int),
        final(v)@[p as int] == old(v)@[right as int],
        forall|k: int| left <= k < p ==> at_most(#[trigger] final(v)@[k], final(v)@[p as int]),
        forall|k: int| p < k <= right ==> at_most(final(v)@[p as int], #[trigger] final(v)@[k]),
{
    proof {
        lemma_order_laws::<T>();
    }
    let ghost s = v@;
    let ghost pv = v@[right as int];
    let mut i: usize = left;
    let mut j: usize = right;
    loop
        invariant_except_break
            i <= j,
            j == right || left < i,
            forall|k: int| j <= k < right ==> at_most(pv, #[trigger] v@[k]),
        invariant
            left <= i <= right,
            j <= right,
            right < s.len(),
            left < right,
            v@.to_multiset() == s.to_multiset(),
            unchanged_outside(v@, s, left as int, right as int),
            drawn_from(v@, s, left as int, right as int),
            v@[right as int] == pv,
            forall|k: int| left <= k < i ==> at_most(#[trigger] v@[k], pv),
            obeys_cmp::<T>(),
        ensures
            left <= i <= right,
            forall|k: int| i <= k < right ==> at_most(pv, #[trigger] v@[k]),
        decreases j - i,
    {
        proof {
            lemma_order_laws::<T>();
        }
        let ghost (i0, j0) = (i, j);
        while v[i] < v[right]
            invariant
                i0 <= i,
                left <= i <= j <= right,
                j == right || left < i,
                forall|k: int| j <= k < right ==> at_most(pv, #[trigger] v@[k]),
                forall|k: int| left <= k < i ==> at_most(#[trigger] v@[k], pv),
                v@[right as int] == pv,
                v@.len() == s.len(),
                right < s.len(),
                T::obeys_partial_cmp_spec(),
                obeys_cmp::<T>(),
                left < right,
            decreases j - i,
        {
            proof {
                lemma_order_laws::<T>();
            }
            i += 1;
        }
        j -= 1;
        while j > left && v[j] > v[right]
            invariant
                left <= j < j0 <= right,
                i0 <= i,
                forall|k: int| j < k < right ==> at_most(pv, #[trigger] v@[k]),
                v@[right as int] == pv,
                v@.len() == s.len(),
                right < s.len(),
                T::obeys_partial_cmp_spec(),
                obeys_cmp::<T>(),
                left < right,
            decreases j,
        {
            j -= 1;
        }
        if i >= j {
            break;
        }
        let ghost before = v@;
        swap_at(v, i, j);
        proof {
            assert forall|k: int| left <= k <= right implies occurs_between(
                #[trigger] v@[k],
                s,
                left as int,
                right as int,
            ) by {
                if k == i {
                    assert(v@[k] == before[j as int]);
                } else if k == j {
                    assert(v@[k] == before[i as int]);
                } else {
                    assert(v@[k] == before[k]);
                }
            }
        }
        i += 1;
    }
    let ghost before = v@;
    swap_at(v, i, right);
    proof {
        assert forall|k: int| left <= k <= right implies occurs_between(
            #[trigger] v@[k],
            s,
            left as int,
            right as int,
        ) by {
            if k == i {
                assert(v@[k] == before[right as int]);
            } else if k == right {
                assert(v@[k] == before[i as int]);
            } else {
                assert(v@[k] == before[k]);
            }
        }
    }
    i
}

/// Sorts `v[left..=right]` in place.
fn impl_quick_sort<T: Ord>(v: &mut Vec<T>, left: usize, right: usize)
    requires
        obeys_cmp::<T>(),
        right < old(v)@.len(),
    ensures
        final(v)@.to_multiset() == old(v)@.to_multiset(),
        unchanged_outside(final(v)@, old(v)@, left as int, right as int),
        drawn_from(final(v)@, old(v)@, left as int, right as int),
        sorted_between(final(v)@, left as int, right + 1),
    decreases right - left,
{
    if left < right {
        let ghost s0 = v@;
        let p = partition(v, left, right);
        let ghost s1 = v@;
        let ghost pv = s1[p as int];
        if p > left {
            impl_quick_sort(v, left, p - 1);
        }
        let ghost s2 = v@;
        if p < right {
            impl_quick_sort(v, p + 1, right);
        }
        proof {
            lemma_order_laws::<T>();
            let s3 = v@;
            assert forall|k: int| left <= k < p implies at_most(#[trigger] s3[k], pv) by {
                assert(s3[k] == s2[k]);
                let m = choose|m: int| left <= m <= p - 1 && s2[k] == s1[m];
            }
            assert forall|k: int| p < k <= right implies at_most(pv, #[trigger] s3[k]) by {
                let m = choose|m: int| p + 1 <= m <= right && s3[k] == s2[m];
            }
            assert(s3[p as int] == pv);
            assert forall|k: int| left <= k <= right implies occurs_between(
                #[trigger] s3[k],
                s0,
                left as int,
                right as int,
            ) by {
                let k1: int = if k < p {
                    choose|m: int| left <= m <= p - 1 && s2[k] == s1[m]
                } else if k == p {
                    k
                } else {
                    choose|m: int| p + 1 <= m <= right && s3[k] == s2[m]
                };
                if k < p {
                    assert(s3[k] == s2[k]);
                } else if k > p {
                    assert(s2[k1] == s1[k1]);
                }
                assert(s3[k] == s1[k1]);
                assert(occurs_between(s1[k1], s0, left as int, right as int));
            }
            assert forall|a: int, b: int| left <= a < b < right + 1 implies at_most(
                #[trigger] s3[a],
                #[trigger] s3[b],
            ) by {
                if a < p && b < p {
                    assert(s3[a] == s2[a] && s3[b] == s2[b]);
                } else if a < p && b > p {
                    assert(at_most(s3[a], pv) && at_most(pv, s3[b]));
                }
            }
        }
    } else {
        proof {
            lemma_drawn_from_itself(v@, left as int, right as int);
        }
    }
}

proof fn lemma_drawn_from_itself<T>(s: Seq<T>, lo: int, hi: int)
    ensures
        drawn_from(s, s, lo, hi),
{
    assert forall|k: int| lo <= k <= hi implies occurs_between(#[trigger] s[k], s, lo, hi) by {
        assert(s[k] == s[k]);
    }
}

/// Sorts `v` in place into non-decreasing order.
pub fn quick_sort<T: Ord>(v: &mut Vec<T>)
    requires
        obeys_cmp::<T>(),
    ensures
        final(v)@.to_multiset() == old(v)@.to_multiset(),
        final(v)@.len() == old(v)@.len(),
        is_sorted(final(v)@),
        obeys_concrete_eq::<T>() && is_sorted(old(v)@) ==> final(v)@ == old(v)@,
{
    let len = v.len();
    if len > 1 {
        impl_quick_sort(v, 0, len - 1);
    }
    proof {
        if obeys_concrete_eq::<T>() && is_sorted(old(v)@) {
            lemma_sorting_sorted_is_identity(old(v)@, v@);
        }
    }
}

/// In a sorted sequence every element is at most the one after it.
pub proof fn lemma_sorted_adjacent_pairs<T: PartialOrd>(s: Seq<T>)
    requires
        is_sorted(s),
    ensures
        forall|i: int| 0 <= i < s.len() - 1 ==> at_most(#[trigger] s[i], s[i + 1]),
{
    assert forall|i: int| 0 <= i < s.len() - 1 implies at_most(#[trigger] s[i], s[i + 1]) by {
        assert(at_most(s[i], s[i + 1]));
    }
}

/// Sorting leaves an already sorted sequence as it is: when `==` is plain
/// equality, the only sorted rearrangement of a sorted sequence is itself.
pub proof fn lemma_sorting_sorted_is_identity<T: Ord>(s: Seq<T>, t: Seq<T>)
    requires
        obeys_cmp::<T>(),
        obeys_concrete_eq::<T>(),
        is_sorted(s),
        is_sorted(t),
        t.to_multiset() == s.to_multiset(),
    ensures
        t == s,
    decreases s.len(),
{
    lemma_order_laws::<T>();
    assert(t.len() == s.len()) by {
        assert(t.len() == t.to_multiset().len());
        assert(s.len() == s.to_multiset().len());
    }
    if s.len() > 0 {
        let a = s[0];
        let b = t[0];
        assert(t.contains(a)) by {
            assert(s.contains(a));
            assert(s.to_multiset().count(a) > 0);
        }
        assert(s.contains(b)) by {
            assert(t.contains(b));
            assert(t.to_multiset().count(b) > 0);
        }
        let j = choose|j: int| 0 <= j < t.len() && t[j] == a;
        let i = choose|i: int| 0 <= i < s.len() && s[i] == b;
        if j > 0 {
            assert(at_most(t[0], t[j]));
        }
        if i > 0 {
            assert(at_most(s[0], s[i]));
        }
        lemma_antisymmetric(a, b);
        let s1 = s.drop_first();
        let t1 = t.drop_first();
        assert(s.remove(0) =~= s1);
        assert(t.remove(0) =~= t1);
        assert(s1.to_multiset() == s.to_multiset().remove(a));
        assert(t1.to_multiset() == t.to_multiset().remove(b));
        assert(is_sorted(s1)) by {
            assert forall|x: int, y: int| 0 <= x < y < s1.len() implies at_most(
                #[trigger] s1[x],
                #[trigger] s1[y],
            ) by {
                assert(s1[x] == s[x + 1] && s1[y] == s[y + 1]);
            }
        }
        assert(is_sorted(t1)) by {
            assert forall|x: int, y: int| 0 <= x < y < t1.len() implies at_most(
                #[trigger] t1[x],
                #[trigger] t1[y],
            ) by {
                assert(t1[x] == t[x + 1] && t1[y] == t[y + 1]);
            }
        }
        lemma_sorting_sorted_is_identity(s1, t1);
        assert(t =~= s) by {
            assert forall|k: int| 0 <= k < s.len() implies t[k] == s[k] by {
                if k > 0 {
                    assert(t[k] == t1[k - 1] && s[k] == s1[k - 1]);
                }
            }
        }
    } else {
        assert(t =~= s);
    }
}

} // verus!
