//! The primes below a bound.
use crate::num::prime::{eratosthenes, primes_below};
use vstd::prelude::*;

verus! {

/// The primes `p < n` in increasing order, by the sieve of Eratosthenes.
pub fn primes(n: usize) -> (ps: Vec<usize>)
    requires
        n < usize::MAX / 2,
    ensures
        primes_below(ps@, n as nat),
{
    eratosthenes(n)
}

} // verus!
