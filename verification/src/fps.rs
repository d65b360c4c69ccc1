//! Formal power series truncated at a precision `n`, as their first `n` coefficients.
use crate::algebra::Semiring;
use crate::poly::{all_valid, conv_coef, conv_prefix};
use vstd::prelude::*;

pub mod elementary;
pub mod power;
pub mod relaxed;

verus! {

/// The product of `f` and `g` in `R[[x]]/(x^n)`: `(fg)(k) = Σ_{i+j=k} f(i) g(j)` for `k` in
/// `[0, n)`, by the schoolbook product.
pub fn fps_convolve<R: Semiring>(ring: &R, f: Vec<R::Value>, g: Vec<R::Value>, n: usize) -> (h: Vec<R::Value>)
    requires
        all_valid(*ring, f@),
        all_valid(*ring, g@),
    ensures
        h@.len() == n,
        forall|k: int| 0 <= k < n ==> #[trigger] h@[k] == conv_coef(*ring, f@, g@, k),
{
    conv_prefix(ring, f.as_slice(), g.as_slice(), n)
}

} // verus!
