//! The ordering that `Ord` promises, stated over vstd's comparison specs.

use core::cmp::Ordering;
use vstd::laws_cmp::{
    obeys_cmp,
    obeys_cmp_ord,
    obeys_cmp_partial_ord,
    obeys_partial_cmp_spec_properties,
};
use vstd::laws_eq::{obeys_concrete_eq, obeys_eq_spec_properties};
use vstd::prelude::*;
use vstd::std_specs::cmp::{OrdSpec, PartialEqSpec, PartialOrdSpec};

verus! {

/// `T` is a key type whose `Ord` is a lawful total order and whose `==` is
/// plain equality.
pub open spec fn lawful_key<T: Ord>() -> bool {
    obeys_cmp::<T>() && obeys_concrete_eq::<T>()
}

/// For a lawful key type `==` decides plain equality.
pub proof fn lemma_eq_is_identity<T: Ord>()
    requires
        lawful_key::<T>(),
    ensures
        T::obeys_eq_spec(),
        forall|a: T, b: T| #[trigger] a.eq_spec(&b) <==> a == b,
{
    reveal(obeys_concrete_eq);
}

/// `a` comes strictly before `b`.
pub open spec fn precedes<T: PartialOrd>(a: T, b: T) -> bool {
    a.partial_cmp_spec(&b) == Some(Ordering::Less)
}

/// `a` comes no later than `b`.
pub open spec fn at_most<T: PartialOrd>(a: T, b: T) -> bool {
    !precedes(b, a)
}

/// What a lawful `Ord` gives: `<` and `>` agree with `precedes`, which is a
/// strict order, and `at_most` is a total preorder.
pub proof fn lemma_order_laws<T: Ord>()
    requires
        obeys_cmp::<T>(),
    ensures
        T::obeys_partial_cmp_spec(),
        forall|a: T, b: T|
            #[trigger] a.partial_cmp_spec(&b) == Some(Ordering::Greater) <==> precedes(b, a),
        forall|a: T| !precedes(a, a),
        forall|a: T, b: T| #[trigger] precedes(a, b) ==> at_most(a, b),
        forall|a: T, b: T| at_most(a, b) || at_most(b, a),
        forall|a: T, b: T, c: T|
            #[trigger] at_most(a, b) && #[trigger] at_most(b, c) ==> at_most(a, c),
{
    reveal(obeys_partial_cmp_spec_properties);
    reveal(obeys_cmp_partial_ord);
    reveal(obeys_cmp_ord);
    reveal(obeys_eq_spec_properties);
    assert forall|a: T, b: T| #[trigger] precedes(a, b) implies at_most(a, b) by {
        assert(b.partial_cmp_spec(&a) == Some(Ordering::Greater));
    }
    assert forall|a: T, b: T| at_most(a, b) || at_most(b, a) by {
        if precedes(b, a) {
            assert(a.partial_cmp_spec(&b) == Some(Ordering::Greater));
        }
    }
    assert forall|a: T, b: T, c: T|
        #[trigger] at_most(a, b) && #[trigger] at_most(b, c) implies at_most(a, c) by {
        if precedes(c, a) {
            assert(b.partial_cmp_spec(&a) == Some(b.cmp_spec(&a)));
            assert(c.partial_cmp_spec(&b) == Some(c.cmp_spec(&b)));
            if b.cmp_spec(&a) == Ordering::Greater {
                assert(precedes(a, b));
                assert(precedes(c, b));
            } else {
                assert(b.eq_spec(&a));
                if c.cmp_spec(&b) == Ordering::Greater {
                    assert(precedes(b, c));
                    assert(precedes(b, a));
                } else {
                    assert(c.eq_spec(&b));
                    assert(c.eq_spec(&a));
                }
            }
        }
    }
}

/// Under an `==` that is plain equality, two values that are each at most
/// the other are the same value.
pub proof fn lemma_antisymmetric<T: Ord>(a: T, b: T)
    requires
        obeys_cmp::<T>(),
        obeys_concrete_eq::<T>(),
        at_most(a, b),
        at_most(b, a),
    ensures
        a == b,
{
    reveal(obeys_partial_cmp_spec_properties);
    reveal(obeys_cmp_partial_ord);
    reveal(obeys_cmp_ord);
    reveal(obeys_concrete_eq);
    assert(a.partial_cmp_spec(&b) == Some(a.cmp_spec(&b)));
    if a.cmp_spec(&b) == Ordering::Greater {
        assert(precedes(b, a));
    }
    assert(a.eq_spec(&b));
}

} // verus!
