//! The border array of a sequence.
use crate::sequence::eq::elem_eq;
use vstd::laws_eq::obeys_concrete_eq;
use vstd::prelude::*;

verus! {

/// `s[0..x)` is a border of `s[0..i)`: a prefix of it that is also its suffix, proper if `x < i`.
pub open spec fn is_border<T>(s: Seq<T>, i: int, x: int) -> bool {
    &&& 0 <= x <= i
    &&& forall|k: int| 0 <= k < x ==> #[trigger] s[k] == s[i - x + k]
}

/// `x` is the length of the longest proper border of `s[0..i)`, and `0` for `i = 0`.
pub open spec fn is_longest_border<T>(s: Seq<T>, i: int, x: int) -> bool {
    &&& is_border(s, i, x)
    &&& (i == 0 && x == 0 || x < i)
    &&& forall|y: int| x < y < i ==> !#[trigger] is_border(s, i, y)
}

/// A border `y` of `s[0..i)` shorter than a border `x` is a border of `s[0..x)`.
pub proof fn lemma_border_of_border<T>(s: Seq<T>, i: int, x: int, y: int)
    requires
        is_border(s, i, x),
        is_border(s, i, y),
        y <= x,
    ensures
        is_border(s, x, y),
{
    assert forall|k: int| 0 <= k < y implies #[trigger] s[k] == s[x - y + k] by {
        assert(s[k] == s[i - y + k]);
        assert(s[(x - y + k) as int] == s[i - x + (x - y + k)]);
    }
}

/// A border of a border of `s[0..i)` is a border of `s[0..i)`.
pub proof fn lemma_border_trans<T>(s: Seq<T>, i: int, x: int, y: int)
    requires
        is_border(s, i, x),
        is_border(s, x, y),
    ensures
        is_border(s, i, y),
{
    assert forall|k: int| 0 <= k < y implies #[trigger] s[k] == s[i - y + k] by {
        assert(s[k] == s[x - y + k]);
        assert(s[x - y + k] == s[i - x + (x - y + k)]);
    }
}

/// The border array of `s`: `b[i]` is the length of the longest proper border of `s[0..i)`, for
/// `i` in `[0, n]`.
pub fn border_array<T: PartialEq>(s: &[T]) -> (b: Vec<usize>)
    requires
        obeys_concrete_eq::<T>(),
        s@.len() < usize::MAX,
    ensures
        b.len() == s@.len() + 1,
        forall|i: int| 0 <= i <= s@.len() ==> is_longest_border(s@, i, #[trigger] b@[i] as int),
{
    let n = s.len();
    let mut b: Vec<usize> = vec![0; n + 1];
    proof {
        assert(is_longest_border(s@, 0, 0));
        if n >= 1 {
            assert(is_longest_border(s@, 1, 0));
        }
    }
    let mut i: usize = 2;
    while i <= n
        invariant
            obeys_concrete_eq::<T>(),
            n == s@.len(),
            2 <= i,
            n >= 1 ==> i <= n + 1,
            b.len() == n + 1,
            forall|j: int| 0 <= j < i && j <= n ==> is_longest_border(s@, j, #[trigger] b@[j] as int),
        decreases n + 1 - i,
    {
        let mut x = b[i - 1];
        proof {
            assert(is_longest_border(s@, i - 1, x as int));
            assert forall|y: int| x + 1 < y < i implies !#[trigger] is_border(s@, i as int, y) by {
                if is_border(s@, i as int, y) {
                    assert(is_border(s@, i - 1, y - 1)) by {
                        assert forall|k: int| 0 <= k < y - 1 implies #[trigger] s@[k] == s@[i - 1 - (
                        y - 1) + k] by {
                            assert(s@[k] == s@[i - y + k]);
                        }
                    }
                }
            }
        }
        while x > 0 && !elem_eq(&s[i - 1], &s[x])
            invariant
                obeys_concrete_eq::<T>(),
                n == s@.len(),
                2 <= i <= n,
                b.len() == n + 1,
                forall|j: int|
                    0 <= j < i && j <= n ==> is_longest_border(s@, j, #[trigger] b@[j] as int),
                x < i - 1,
                is_border(s@, i - 1, x as int),
                forall|y: int| x + 1 < y < i ==> !#[trigger] is_border(s@, i as int, y),
            decreases x,
        {
            let y0 = b[x];
            proof {
                assert(is_longest_border(s@, x as int, y0 as int));
                lemma_border_trans(s@, i - 1, x as int, y0 as int);
                assert forall|y: int| y0 + 1 < y < i implies !#[trigger] is_border(
                    s@,
                    i as int,
                    y,
                ) by {
                    if y <= x + 1 && is_border(s@, i as int, y) {
                        if y == x + 1 {
                            assert(s@[y - 1] == s@[i - y + (y - 1)]);
                        } else {
                            assert(is_border(s@, i - 1, y - 1)) by {
                                assert forall|k: int| 0 <= k < y - 1 implies #[trigger] s@[k]
                                    == s@[i - 1 - (y - 1) + k] by {
                                    assert(s@[k] == s@[i - y + k]);
                                }
                            }
                            lemma_border_of_border(s@, i - 1, x as int, y - 1);
                        }
                    }
                }
            }
            x = y0;
        }
        if elem_eq(&s[i - 1], &s[x]) {
            proof {
                assert(is_border(s@, i as int, x + 1)) by {
                    assert forall|k: int| 0 <= k < x + 1 implies #[trigger] s@[k] == s@[i - (x
                        + 1) + k] by {
                        if k < x {
                            assert(s@[k] == s@[i - 1 - x + k]);
                        }
                    }
                }
            }
            x = x + 1;
        } else {
            proof {
                assert(!is_border(s@, i as int, 1)) by {
                    if is_border(s@, i as int, 1) {
                        assert(s@[0] == s@[i - 1 + 0]);
                    }
                }
            }
        }
        b.set(i, x);
        i = i + 1;
    }
    b
}

} // verus!
