//! The previous and next positions holding the same element.
use vstd::prelude::*;

verus! {

/// `o` is the last position before `i` holding `c`, or `None` if there is none.
pub open spec fn is_last_before(s: Seq<usize>, i: int, c: usize, o: Option<usize>) -> bool {
    match o {
        Some(j) => j < i && s[j as int] == c && forall|k: int| j < k < i ==> #[trigger] s[k] != c,
        None => forall|k: int| 0 <= k < i ==> #[trigger] s[k] != c,
    }
}

/// `o` is the first position after `i` holding `c`, or `None` if there is none.
pub open spec fn is_first_after(s: Seq<usize>, i: int, c: usize, o: Option<usize>) -> bool {
    match o {
        Some(j) => i < j < s.len() && s[j as int] == c && forall|k: int|
            i < k < j ==> #[trigger] s[k] != c,
        None => forall|k: int| i < k < s.len() ==> #[trigger] s[k] != c,
    }
}

/// The previous position holding the same element, for each position of `s`: `p[i]` is the
/// largest `j < i` with `s[j] = s[i]`, or `None`. The elements are in `[0, sigma)`.
pub fn previous_occurrence(s: &[usize], sigma: usize) -> (p: Vec<Option<usize>>)
    requires
        forall|i: int| 0 <= i < s@.len() ==> #[trigger] s@[i] < sigma,
    ensures
        p.len() == s@.len(),
        forall|i: int| 0 <= i < s@.len() ==> is_last_before(s@, i, s@[i], #[trigger] p@[i]),
{
    let mut p: Vec<Option<usize>> = Vec::with_capacity(s.len());
    let mut last: Vec<Option<usize>> = vec![None; sigma];
    let mut i: usize = 0;
    while i < s.len()
        invariant
            i <= s@.len(),
            p.len() == i,
            last.len() == sigma,
            forall|i: int| 0 <= i < s@.len() ==> #[trigger] s@[i] < sigma,
            forall|c: int| 0 <= c < sigma ==> is_last_before(s@, i as int, c as usize, #[trigger] last@[c]),
            forall|j: int| 0 <= j < i ==> is_last_before(s@, j, s@[j], #[trigger] p@[j]),
        decreases s@.len() - i,
    {
        let c = s[i];
        p.push(last[c]);
        last.set(c, Some(i));
        proof {
            assert forall|d: int| 0 <= d < sigma implies is_last_before(
                s@,
                i + 1,
                d as usize,
                #[trigger] last@[d],
            ) by {
                if d != c {
                    assert(is_last_before(s@, i as int, d as usize, last@[d]));
                }
            }
        }
        i = i + 1;
    }
    p
}

/// The next position holding the same element, for each position of `s`: `q[i]` is the smallest
/// `j > i` with `s[j] = s[i]`, or `None`. The elements are in `[0, sigma)`.
pub fn next_occurrence(s: &[usize], sigma: usize) -> (q: Vec<Option<usize>>)
    requires
        forall|i: int| 0 <= i < s@.len() ==> #[trigger] s@[i] < sigma,
    ensures
        q.len() == s@.len(),
        forall|i: int| 0 <= i < s@.len() ==> is_first_after(s@, i, s@[i], #[trigger] q@[i]),
{
    let n = s.len();
    let mut q: Vec<Option<usize>> = vec![None; n];
    let mut last: Vec<Option<usize>> = vec![None; sigma];
    let mut i: usize = n;
    while i > 0
        invariant
            i <= n,
            n == s@.len(),
            q.len() == n,
            last.len() == sigma,
            forall|i: int| 0 <= i < s@.len() ==> #[trigger] s@[i] < sigma,
            forall|c: int|
                0 <= c < sigma ==> is_first_after(s@, i - 1, c as usize, #[trigger] last@[c]),
            forall|j: int| i <= j < n ==> is_first_after(s@, j, s@[j], #[trigger] q@[j]),
        decreases i,
    {
        i = i - 1;
        let c = s[i];
        q.set(i, last[c]);
        last.set(c, Some(i));
        proof {
            assert forall|d: int| 0 <= d < sigma implies is_first_after(
                s@,
                i - 1,
                d as usize,
                #[trigger] last@[d],
            ) by {
                if d != c {
                    assert(is_first_after(s@, i as int, d as usize, last@[d]));
                }
            }
        }
    }
    q
}

} // verus!
