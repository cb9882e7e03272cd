//! The order on time values that the cursor relies on.
use vstd::laws_cmp::*;
use vstd::laws_eq::*;
use vstd::std_specs::cmp::{OrdSpec, PartialEqSpec, PartialOrdSpec};
use vstd::prelude::*;

verus! {

/// `a <= b` in the order given by `T`'s `Ord` impl.
pub open spec fn time_le<T: Ord>(a: T, b: T) -> bool {
    a.cmp_spec(&b) != core::cmp::Ordering::Greater
}

/// Facts about `time_le` that follow from `T`'s comparison laws.
pub proof fn lemma_time_order<T: Ord>()
    requires
        obeys_cmp::<T>(),
    ensures
        T::obeys_partial_cmp_spec(),
        T::obeys_cmp_spec(),
        forall|a: T| #[trigger] time_le(a, a),
        forall|a: T, b: T| #![trigger time_le(a, b)] time_le(a, b) || time_le(b, a),
        forall|a: T, b: T, c: T|
            #[trigger] time_le(a, b) && #[trigger] time_le(b, c) ==> time_le(a, c),
        forall|a: T, b: T|
            #![trigger a.cmp_spec(&b)]
            a.cmp_spec(&b) == core::cmp::Ordering::Less <==> b.cmp_spec(&a)
                == core::cmp::Ordering::Greater,
        forall|a: T, b: T|
            #![trigger a.partial_cmp_spec(&b)]
            #![trigger time_le(a, b)]
            a.partial_cmp_spec(&b) == Some(a.cmp_spec(&b)),
{
    reveal(obeys_partial_cmp_spec_properties);
    reveal(obeys_cmp_ord);
    reveal(obeys_eq_spec_properties);
    reveal(obeys_cmp_partial_ord);
    assert forall|a: T| #[trigger] time_le(a, a) by {
        assert(a.partial_cmp_spec(&a) == Some(a.cmp_spec(&a)));
    }
    assert forall|a: T, b: T, c: T|
        #[trigger] time_le(a, b) && #[trigger] time_le(b, c) implies time_le(a, c) by {
        assert(a.partial_cmp_spec(&b) == Some(a.cmp_spec(&b)));
        assert(b.partial_cmp_spec(&c) == Some(b.cmp_spec(&c)));
        assert(a.partial_cmp_spec(&c) == Some(a.cmp_spec(&c)));
        assert(c.partial_cmp_spec(&a) == Some(c.cmp_spec(&a)));
        assert(b.partial_cmp_spec(&a) == Some(b.cmp_spec(&a)));
        assert(c.partial_cmp_spec(&b) == Some(c.cmp_spec(&b)));
    }
    assert forall|a: T, b: T|
        #![trigger a.cmp_spec(&b)]
        a.cmp_spec(&b) == core::cmp::Ordering::Less <==> b.cmp_spec(&a)
            == core::cmp::Ordering::Greater by {
        assert(a.partial_cmp_spec(&b) == Some(a.cmp_spec(&b)));
        assert(b.partial_cmp_spec(&a) == Some(b.cmp_spec(&a)));
    }
    assert forall|a: T, b: T| #![trigger time_le(a, b)] time_le(a, b) || time_le(b, a) by {
        assert(a.partial_cmp_spec(&b) == Some(a.cmp_spec(&b)));
        assert(b.partial_cmp_spec(&a) == Some(b.cmp_spec(&a)));
    }
}


} // verus!
