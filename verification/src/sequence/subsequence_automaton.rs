//! The subsequence automaton of a sequence.
use vstd::arithmetic::div_mod::*;
use vstd::arithmetic::mul::*;
use vstd::prelude::*;

verus! {

/// The first position `j >= i` with `s[j] = c`, or `None` if there is none.
pub open spec fn first_from(s: Seq<usize>, i: int, c: usize) -> Option<nat>
    decreases s.len() - i,
{
    if i < 0 || i >= s.len() {
        None
    } else if s[i] == c {
        Some(i as nat)
    } else {
        first_from(s, i + 1, c)
    }
}

pub proof fn lemma_first_from(s: Seq<usize>, i: int, c: usize)
    requires
        0 <= i,
    ensures
        first_from(s, i, c) matches Some(j) ==> i <= j < s.len() && s[j as int] == c && forall|k: int|
            i <= k < j ==> #[trigger] s[k] != c,
        first_from(s, i, c) is None ==> forall|k: int| i <= k < s.len() ==> #[trigger] s[k] != c,
    decreases s.len() - i,
{
    if i < s.len() && s[i] != c {
        lemma_first_from(s, i + 1, c);
    }
}

/// `e` embeds `t` into `s` at positions at least `i`: strictly increasing positions `e[k]` with
/// `s[e[k]] = t[k]`.
pub open spec fn is_embedding(s: Seq<usize>, t: Seq<usize>, e: Seq<int>, i: int) -> bool {
    &&& e.len() == t.len()
    &&& forall|k: int| 0 <= k < e.len() ==> i <= #[trigger] e[k] < s.len() && s[e[k]] == t[k]
    &&& forall|k: int, l: int| 0 <= k < l < e.len() ==> e[k] < e[l]
}

/// `t` is a subsequence of `s`.
pub open spec fn is_subsequence(t: Seq<usize>, s: Seq<usize>) -> bool {
    exists|e: Seq<int>| is_embedding(s, t, e, 0)
}

/// Matching `t` greedily in `s` from position `i`, each element at its first occurrence.
pub open spec fn greedy_match(s: Seq<usize>, t: Seq<usize>, i: int) -> bool
    decreases t.len(),
{
    if t.len() == 0 {
        true
    } else {
        match first_from(s, i, t[0]) {
            Some(j) => greedy_match(s, t.drop_first(), j as int + 1),
            None => false,
        }
    }
}

/// The greedy match succeeds exactly when `t` embeds into `s` from `i`.
pub proof fn lemma_greedy_match(s: Seq<usize>, t: Seq<usize>, i: int)
    requires
        0 <= i,
    ensures
        greedy_match(s, t, i) <==> exists|e: Seq<int>| is_embedding(s, t, e, i),
    decreases t.len(),
{
    if t.len() == 0 {
        assert(is_embedding(s, t, Seq::<int>::empty(), i));
    } else {
        lemma_first_from(s, i, t[0]);
        match first_from(s, i, t[0]) {
            Some(j) => {
                let j1 = j as int + 1;
                lemma_greedy_match(s, t.drop_first(), j1);
                if greedy_match(s, t, i) {
                    let e1 = choose|e1: Seq<int>| is_embedding(s, t.drop_first(), e1, j1);
                    let e = seq![j as int] + e1;
                    assert(is_embedding(s, t, e, i)) by {
                        assert forall|k: int| 0 <= k < e.len() implies i <= #[trigger] e[k] < s.len()
                            && s[e[k]] == t[k] by {
                            if k > 0 {
                                assert(e[k] == e1[k - 1]);
                            }
                        }
                        assert forall|k: int, l: int| 0 <= k < l < e.len() implies e[k] < e[l] by {
                            if k > 0 {
                                assert(e[k] == e1[k - 1]);
                            }
                            assert(e[l] == e1[l - 1]);
                        }
                    }
                }
                if exists|e: Seq<int>| is_embedding(s, t, e, i) {
                    let e = choose|e: Seq<int>| is_embedding(s, t, e, i);
                    let e1 = e.drop_first();
                    assert(e[0] >= j) by {
                        assert(s[e[0]] == t[0]);
                    }
                    assert(is_embedding(s, t.drop_first(), e1, j1)) by {
                        assert forall|k: int| 0 <= k < e1.len() implies j + 1 <= #[trigger] e1[k]
                            < s.len() && s[e1[k]] == t.drop_first()[k] by {
                            assert(e1[k] == e[k + 1]);
                            assert(e[0] < e[k + 1]);
                        }
                        assert forall|k: int, l: int| 0 <= k < l < e1.len() implies e1[k] < e1[l] by {
                            assert(e1[k] == e[k + 1]);
                            assert(e1[l] == e[l + 1]);
                        }
                    }
                }
            },
            None => {
                if exists|e: Seq<int>| is_embedding(s, t, e, i) {
                    let e = choose|e: Seq<int>| is_embedding(s, t, e, i);
                    assert(s[e[0]] == t[0]);
                }
            },
        }
    }
}

/// The index of the cell `(i, c)` of a table with `sigma` columns.
pub open spec fn cell(i: int, c: int, sigma: int) -> int {
    i * sigma + c
}

proof fn lemma_cell(i: int, c: int, sigma: int, rows: int)
    requires
        0 <= i < rows,
        0 <= c < sigma,
    ensures
        0 <= cell(i, c, sigma) < rows * sigma,
        cell(i, c, sigma) / sigma == i,
        cell(i, c, sigma) % sigma == c,
        i * sigma <= cell(i, c, sigma) < (i + 1) * sigma,
{
    lemma_fundamental_div_mod_converse(cell(i, c, sigma), sigma, i, c);
    lemma_mul_is_commutative(i, sigma);
    lemma_mul_inequality(i + 1, rows, sigma);
    lemma_mul_is_distributive_add_other_way(sigma, i, 1);
    lemma_mul_nonnegative(i, sigma);
}

/// The encoding of `first_from` in the table: the position, or `u32::MAX` for none.
pub open spec fn encode(o: Option<nat>) -> u32 {
    match o {
        Some(j) => j as u32,
        None => u32::MAX,
    }
}

/// The subsequence automaton of a sequence `s` of length `n` over `[0, sigma)`: states `0..=n`,
/// all accepting, and the transition from `i` on `c` to one past the first `c` at or after `i`.
pub struct SubsequenceAutomaton {
    next: Vec<u32>,
    len: usize,
    sigma: usize,
    s: Ghost<Seq<usize>>,
}

impl SubsequenceAutomaton {
    #[verifier::type_invariant]
    spec fn wf(self) -> bool {
        &&& self.len == self.s@.len()
        &&& self.len < u32::MAX
        &&& self.next.len() == (self.len + 1) * self.sigma
        &&& forall|i: int, c: int|
            0 <= i <= self.len && 0 <= c < self.sigma ==> self.next@[#[trigger] cell(
                i,
                c,
                self.sigma as int,
            )] == encode(first_from(self.s@, i, c as usize))
    }

    /// The sequence `s`.
    pub closed spec fn spec_seq(self) -> Seq<usize> {
        self.s@
    }

    /// The alphabet size `sigma`.
    pub closed spec fn spec_sigma(self) -> nat {
        self.sigma as nat
    }

    /// The subsequence automaton of `s`, whose elements are in `[0, sigma)`.
    pub fn from_slice(s: &[usize], sigma: usize) -> (a: Self)
        requires
            s@.len() < u32::MAX,
            (s@.len() + 1) * sigma <= usize::MAX,
            forall|i: int| 0 <= i < s@.len() ==> #[trigger] s@[i] < sigma,
        ensures
            a.spec_seq() == s@,
            a.spec_sigma() == sigma,
    {
        let n = s.len();
        let mut next: Vec<u32> = vec![u32::MAX; (n + 1) * sigma];
        proof {
            assert forall|c: int| 0 <= c < sigma implies next@[#[trigger] cell(
                n as int,
                c,
                sigma as int,
            )] == encode(first_from(s@, n as int, c as usize)) by {
                lemma_cell(n as int, c, sigma as int, n + 1);
            }
        }
        let mut i: usize = n;
        while i > 0
            invariant
                i <= n,
                n == s@.len(),
                n < u32::MAX,
                (n + 1) * sigma <= usize::MAX,
                next.len() == (n + 1) * sigma,
                forall|i: int| 0 <= i < s@.len() ==> #[trigger] s@[i] < sigma,
                forall|k: int, c: int|
                    i <= k <= n && 0 <= c < sigma ==> next@[#[trigger] cell(k, c, sigma as int)]
                        == encode(first_from(s@, k, c as usize)),
            decreases i,
        {
            i = i - 1;
            proof {
                lemma_mul_inequality(i as int + 1, n as int + 1, sigma as int);
                lemma_mul_is_distributive_add_other_way(sigma as int, i as int, 1);
                lemma_mul_is_distributive_add_other_way(sigma as int, i as int + 1, 1);
                lemma_mul_nonnegative(i as int, sigma as int);
                if i + 2 > n + 1 {
                } else {
                    lemma_mul_inequality(i as int + 2, n as int + 1, sigma as int);
                }
            }
            let base = i * sigma;
            let mut t: usize = 0;
            while t < sigma
                invariant
                    i < n,
                    n == s@.len(),
                    n < u32::MAX,
                    (n + 1) * sigma <= usize::MAX,
                    next.len() == (n + 1) * sigma,
                    base == i * sigma,
                    base + sigma + sigma <= (n + 1) * sigma,
                    t <= sigma,
                    forall|k: int, c: int|
                        i + 1 <= k <= n && 0 <= c < sigma ==> next@[#[trigger] cell(
                            k,
                            c,
                            sigma as int,
                        )] == encode(first_from(s@, k, c as usize)),
                    forall|c: int|
                        0 <= c < t ==> next@[#[trigger] cell(i as int, c, sigma as int)] == encode(
                            first_from(s@, i + 1, c as usize),
                        ),
                decreases sigma - t,
            {
                let v = next[base + sigma + t];
                proof {
                    lemma_cell(i as int + 1, t as int, sigma as int, n + 1);
                    assert(base + sigma + t == cell(i as int + 1, t as int, sigma as int)) by {
                        lemma_mul_is_distributive_add_other_way(sigma as int, i as int, 1);
                    }
                }
                next.set(base + t, v);
                proof {
                    assert forall|k: int, c: int|
                        i + 1 <= k <= n && 0 <= c < sigma implies next@[#[trigger] cell(
                        k,
                        c,
                        sigma as int,
                    )] == encode(first_from(s@, k, c as usize)) by {
                        lemma_cell(k, c, sigma as int, n + 1);
                        lemma_cell(i as int, t as int, sigma as int, n + 1);
                    }
                    assert forall|c: int| 0 <= c < t + 1 implies next@[#[trigger] cell(
                        i as int,
                        c,
                        sigma as int,
                    )] == encode(first_from(s@, i + 1, c as usize)) by {
                        lemma_cell(i as int, c, sigma as int, n + 1);
                        lemma_cell(i as int, t as int, sigma as int, n + 1);
                    }
                }
                t = t + 1;
            }
            let c = s[i];
            proof {
                lemma_cell(i as int, c as int, sigma as int, n + 1);
            }
            next.set(base + c, i as u32);
            proof {
                assert forall|k: int, d: int|
                    i <= k <= n && 0 <= d < sigma implies next@[#[trigger] cell(
                    k,
                    d,
                    sigma as int,
                )] == encode(first_from(s@, k, d as usize)) by {
                    lemma_cell(k, d, sigma as int, n + 1);
                    lemma_cell(i as int, c as int, sigma as int, n + 1);
                    if k == i && d != c {
                        assert(next@[cell(i as int, d, sigma as int)] == encode(
                            first_from(s@, i + 1, d as usize),
                        ));
                    }
                }
            }
        }
        SubsequenceAutomaton { next, len: n, sigma, s: Ghost(s@) }
    }

    /// The position of the first `c` at or after `i`, or `None` if there is none.
    pub fn next(&self, i: usize, c: usize) -> (j: Option<usize>)
        requires
            i <= self.spec_seq().len(),
            c < self.spec_sigma(),
        ensures
            j == (match first_from(self.spec_seq(), i as int, c) {
                Some(k) => Some(k as usize),
                None => None,
            }),
    {
        proof {
            use_type_invariant(self);
            lemma_cell(i as int, c as int, self.sigma as int, self.len + 1);
            lemma_first_from(self.s@, i as int, c);
        }
        let j = self.next[i * self.sigma + c];
        if j != u32::MAX {
            Some(j as usize)
        } else {
            None
        }
    }

    /// Whether `t` is a subsequence of `s`.
    pub fn accepts(&self, t: &[usize]) -> (b: bool)
        requires
            forall|k: int| 0 <= k < t@.len() ==> #[trigger] t@[k] < self.spec_sigma(),
        ensures
            b == is_subsequence(t@, self.spec_seq()),
    {
        proof {
            use_type_invariant(self);
            lemma_greedy_match(self.s@, t@, 0);
            assert(t@.skip(0) =~= t@);
        }
        let mut i: usize = 0;
        let mut k: usize = 0;
        while k < t.len()
            invariant
                self.wf(),
                k <= t@.len(),
                i <= self.s@.len(),
                forall|k: int| 0 <= k < t@.len() ==> #[trigger] t@[k] < self.spec_sigma(),
                greedy_match(self.s@, t@, 0) == greedy_match(self.s@, t@.skip(k as int), i as int),
                greedy_match(self.s@, t@, 0) == is_subsequence(t@, self.s@),
            decreases t@.len() - k,
        {
            let c = t[k];
            proof {
                assert(t@.skip(k as int)[0] == c);
                assert(t@.skip(k as int).drop_first() =~= t@.skip(k as int + 1));
                lemma_first_from(self.s@, i as int, c);
            }
            match self.next(i, c) {
                Some(j) => {
                    i = j + 1;
                },
                None => {
                    assert(!greedy_match(self.s@, t@.skip(k as int), i as int));
                    return false;
                },
            }
            k = k + 1;
        }
        proof {
            assert(t@.skip(k as int) =~= Seq::<usize>::empty());
        }
        true
    }

    /// The length `n` of `s`.
    pub fn len(&self) -> (n: usize)
        ensures
            n == self.spec_seq().len(),
    {
        proof {
            use_type_invariant(self);
        }
        self.len
    }

    /// Whether `n = 0`.
    pub fn is_empty(&self) -> (b: bool)
        ensures
            b == (self.spec_seq().len() == 0),
    {
        self.len() == 0
    }

    /// The alphabet size `sigma`.
    pub fn sigma(&self) -> (sigma: usize)
        ensures
            sigma == self.spec_sigma(),
    {
        self.sigma
    }
}

} // verus!
