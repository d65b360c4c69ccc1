//! Set functions on `[n]`: a value for each subset of `[n] = {0, ..., n - 1}`, stored in a slice
//! of length `2^n` with `f(S)` at the index whose bit `v` is set iff `v` is in `S`.
pub mod set_power_series;
pub mod subset;
pub mod subset_inverse;
pub mod superset;
pub mod superset_sum;
pub mod disjoint_sum;
pub mod symdiff_sum;
pub mod intersection_sum;
pub mod walsh_sum;
pub mod xor;
