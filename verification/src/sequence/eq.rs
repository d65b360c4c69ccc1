//! Equality of elements whose `==` is the mathematical equality.
use vstd::laws_eq::obeys_concrete_eq;
use vstd::prelude::*;

verus! {

/// `a == b`, for a type whose `==` is the mathematical equality.
pub fn elem_eq<T: PartialEq>(a: &T, b: &T) -> (r: bool)
    requires
        obeys_concrete_eq::<T>(),
    ensures
        r == (*a == *b),
{
    proof {
        reveal(obeys_concrete_eq);
    }
    *a == *b
}

} // verus!
