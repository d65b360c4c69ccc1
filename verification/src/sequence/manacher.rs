//! Palindrome radii by Manacher's algorithm.
use crate::sequence::eq::elem_eq;
use vstd::laws_eq::obeys_concrete_eq;
use vstd::prelude::*;

verus! {

/// `s[i - x + 1..i + x)` is a palindrome centered at `i`.
pub open spec fn is_pal_radius<T>(s: Seq<T>, i: int, x: int) -> bool {
    &&& 1 <= x
    &&& i - x + 1 >= 0
    &&& i + x <= s.len()
    &&& forall|t: int| 0 <= t < x ==> #[trigger] s[i - t] == s[i + t]
}

/// `x` is the largest radius of a palindrome centered at `i`.
pub open spec fn is_max_pal_radius<T>(s: Seq<T>, i: int, x: int) -> bool {
    &&& is_pal_radius(s, i, x)
    &&& (x == i + 1 || i + x == s.len() || s[i - x] != s[i + x])
}

/// The palindrome radii of `s`: `r[i]` is the largest `r` such that `s[i - r + 1..i + r)` is a
/// palindrome.
pub fn manacher<T: PartialEq>(s: &[T]) -> (r: Vec<usize>)
    requires
        obeys_concrete_eq::<T>(),
        s@.len() <= usize::MAX / 2,
    ensures
        r.len() == s@.len(),
        forall|i: int| 0 <= i < s@.len() ==> is_max_pal_radius(s@, i, #[trigger] r@[i] as int),
{
    let n = s.len();
    let mut r: Vec<usize> = vec![1; n];
    let mut c: usize = 0;
    let mut k: usize = 1;
    if n == 0 {
        return r;
    }
    proof {
        assert(is_max_pal_radius(s@, 0, 1));
    }
    let mut i: usize = 1;
    while i < n
        invariant
            obeys_concrete_eq::<T>(),
            n == s@.len(),
            n <= usize::MAX / 2,
            1 <= i <= n,
            r.len() == n,
            c < i,
            c < k <= n,
            2 * c + 1 >= k,
            forall|t: int| 0 <= t < k - c ==> #[trigger] s@[c - t] == s@[c + t],
            forall|j: int| 0 <= j < i ==> is_max_pal_radius(s@, j, #[trigger] r@[j] as int),
        decreases n - i,
    {
        let mut x: usize = if i < k {
            let a = r[2 * c - i];
            if a < k - i {
                a
            } else {
                k - i
            }
        } else {
            0
        };
        proof {
            if i < k {
                let j = 2 * c - i;
                assert(is_max_pal_radius(s@, j as int, r@[j as int] as int));
                assert forall|t: int| 0 <= t < x implies #[trigger] s@[i - t] == s@[i + t] by {
                    assert(s@[c - (i + t - c)] == s@[c + (i + t - c)]);
                    let d = i - t - c;
                    if d >= 0 {
                        assert(s@[c - d] == s@[c + d]);
                    } else {
                        assert(s@[c - (0 - d)] == s@[c + (0 - d)]);
                    }
                    assert(s@[j - t] == s@[j + t]);
                }
            }
        }
        while x <= i && i + x < n && elem_eq(&s[i - x], &s[i + x])
            invariant
                obeys_concrete_eq::<T>(),
                n == s@.len(),
                1 <= i < n,
                x <= i + 1,
                i + x <= n,
                forall|t: int| 0 <= t < x ==> #[trigger] s@[i - t] == s@[i + t],
            decreases n - i - x,
        {
            x = x + 1;
        }
        r.set(i, x);
        if i + x > k {
            c = i;
            k = i + x;
        }
        i = i + 1;
    }
    r
}

} // verus!
