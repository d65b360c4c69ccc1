//! The Z-array of a sequence.
use crate::sequence::eq::elem_eq;
use vstd::laws_eq::obeys_concrete_eq;
use vstd::prelude::*;

verus! {

/// `x` is the length of the longest common prefix of `s` and its suffix `s[i..]`.
pub open spec fn is_lcp_at<T>(s: Seq<T>, i: int, x: int) -> bool {
    &&& 0 <= x <= s.len() - i
    &&& forall|k: int| 0 <= k < x ==> #[trigger] s[k] == s[i + k]
    &&& (x == s.len() - i || s[x] != s[i + x])
}

/// The Z-array of `s`: `z[i]` is the length of the longest common prefix of `s` and `s[i..]`.
pub fn z_algorithm<T: PartialEq>(s: &[T]) -> (z: Vec<usize>)
    requires
        obeys_concrete_eq::<T>(),
    ensures
        z.len() == s@.len(),
        forall|i: int| 0 <= i < s@.len() ==> is_lcp_at(s@, i, #[trigger] z@[i] as int),
{
    let n = s.len();
    let mut z: Vec<usize> = vec![n; n];
    let mut l: usize = 0;
    let mut r: usize = 1;
    if n == 0 {
        return z;
    }
    let mut i: usize = 1;
    while i < n
        invariant
            obeys_concrete_eq::<T>(),
            n == s@.len(),
            1 <= i <= n,
            z.len() == n,
            z@[0] == n,
            l < i,
            l <= r <= n,
            l == 0 ==> r == 1,
            forall|k: int| 0 <= k < r - l ==> #[trigger] s@[k] == s@[l + k],
            forall|j: int| 0 < j < i ==> is_lcp_at(s@, j, #[trigger] z@[j] as int),
        decreases n - i,
    {
        let mut x: usize = if i < r {
            let a = z[i - l];
            if a < r - i {
                a
            } else {
                r - i
            }
        } else {
            0
        };
        proof {
            if i < r {
                let j = i - l;
                assert(is_lcp_at(s@, j as int, z@[j as int] as int));
                assert forall|k: int| 0 <= k < x implies #[trigger] s@[k] == s@[i + k] by {
                    assert(s@[k] == s@[j + k]);
                    assert(s@[l + (j + k)] == s@[j + k]);
                }
            }
        }
        while i + x < n && elem_eq(&s[x], &s[i + x])
            invariant
                obeys_concrete_eq::<T>(),
                n == s@.len(),
                1 <= i < n,
                x <= n - i,
                forall|k: int| 0 <= k < x ==> #[trigger] s@[k] == s@[i + k],
            decreases n - i - x,
        {
            x = x + 1;
        }
        z.set(i, x);
        if i + x > r {
            l = i;
            r = i + x;
        }
        i = i + 1;
    }
    proof {
        assert(is_lcp_at(s@, 0, n as int));
    }
    z
}

} // verus!
